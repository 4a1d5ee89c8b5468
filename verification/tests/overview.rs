use chrono::{Local, TimeZone};
use moadim_ui::overview::{
    attention_items, attention_items_given, attention_reason, compute_kpis, from_routine, kpis_given, next_run_summary,
    sources_of, upcoming_runs, upcoming_runs_given,
    AttentionReason, Kind, Kpis, SchedSource, UPCOMING_LIMIT,
};
use moadim_ui::routines::Routine;

/// A fixed reference instant (10:00 local) so cron math is deterministic.
fn at_ten() -> i64 {
    Local.with_ymd_and_hms(2026, 6, 22, 10, 0, 0).single().expect("valid local time").timestamp()
}

/// A healthy source: targets a machine and a registered agent.
fn src(kind: Kind, label: &str, schedule: &str, enabled: bool) -> SchedSource {
    SchedSource {
        kind,
        id: label.into(),
        label: label.into(),
        schedule: schedule.into(),
        human: None,
        enabled,
        machines_empty: false,
        agent_registered: match kind {
            Kind::Routine => Some(true),
        },
        flag_count: 0,
        snoozed: false,
    }
}

fn routine(id: &str, title: &str, schedule: &str, machines: &[&str], enabled: bool, registered: bool) -> Routine {
    Routine {
        id: id.into(),
        schedule: schedule.into(),
        title: title.into(),
        agent: "codex".into(),
        prompt: "go".into(),
        repositories: vec![],
        machines: machines.iter().map(|m| (*m).to_string()).collect(),
        enabled,
        source: String::new(),
        created_at: 0,
        updated_at: 0,
        last_manual_trigger_at: None,
        last_scheduled_trigger_at: None,
        snoozed_until: None,
        skip_runs: None,
        ttl_secs: None,
        tags: vec![],
        agent_registered: registered,
        file_path: String::new(),
        schedule_description: None,
        flag_count: 0,
    }
}

#[test]
fn kpis_count_total_enabled_disabled_due_soon() {
    let sources = vec![
        src(Kind::Routine, "a", "*/5 * * * *", true),
        src(Kind::Routine, "b", "0 0 * * *", true),
        src(Kind::Routine, "c", "*/5 * * * *", false),
    ];
    let kpis = compute_kpis(&sources, at_ten());
    assert_eq!(kpis.total, 3);
    assert_eq!(kpis.enabled, 2);
    assert_eq!(kpis.disabled, 1);
    assert_eq!(kpis.due_soon, 1);
}

#[test]
fn kpis_default_is_zeroed() {
    let kpis = Kpis::default();
    assert_eq!(kpis.total, 0);
    assert_eq!(kpis.enabled, 0);
    assert_eq!(kpis.disabled, 0);
    assert_eq!(kpis.due_soon, 0);
}

#[test]
fn kpis_count_flags_snoozed_and_dormant() {
    let mut flagged = src(Kind::Routine, "f", "*/5 * * * *", true);
    flagged.flag_count = 3;
    let mut snoozed = src(Kind::Routine, "s", "*/5 * * * *", true);
    snoozed.snoozed = true;
    let mut dormant = src(Kind::Routine, "d", "*/5 * * * *", true);
    dormant.machines_empty = true;
    let kpis = compute_kpis(&[flagged, snoozed, dormant], at_ten());
    assert_eq!(kpis.flags, 3);
    assert_eq!(kpis.snoozed, 1);
    assert_eq!(kpis.dormant, 1);
    assert_eq!(kpis.due_soon, 2);
    assert_eq!(kpis.attention, 2);
}

#[test]
fn upcoming_sorted_soonest_first_excludes_disabled_and_invalid() {
    let sources = vec![
        src(Kind::Routine, "midnight", "0 0 * * *", true),
        src(Kind::Routine, "five", "*/5 * * * *", true),
        src(Kind::Routine, "off", "*/1 * * * *", false),
        src(Kind::Routine, "bad", "not a cron", true),
    ];
    let runs = upcoming_runs(&sources, at_ten());
    assert_eq!(runs.len(), 2);
    assert_eq!(runs[0].label, "five");
    assert_eq!(runs[0].kind, Kind::Routine);
    assert_eq!(runs[1].label, "midnight");
    assert!(runs[0].soon);
    assert!(!runs[1].soon);
}

#[test]
fn upcoming_truncates_to_limit() {
    let sources: Vec<SchedSource> =
        (0..UPCOMING_LIMIT + 4).map(|i| src(Kind::Routine, &format!("job{i:02}"), "*/5 * * * *", true)).collect();
    let runs = upcoming_runs(&sources, at_ten());
    assert_eq!(runs.len(), UPCOMING_LIMIT);
}

#[test]
fn upcoming_ties_break_by_label() {
    let sources = vec![src(Kind::Routine, "zeta", "*/5 * * * *", true), src(Kind::Routine, "alpha", "*/5 * * * *", true)];
    let runs = upcoming_runs(&sources, at_ten());
    assert_eq!(runs[0].label, "alpha");
    assert_eq!(runs[1].label, "zeta");
}

#[test]
fn upcoming_preserves_human_description() {
    let mut source = src(Kind::Routine, "nightly", "0 0 * * *", true);
    source.human = Some("At midnight".into());
    let runs = upcoming_runs(&[source], at_ten());
    assert_eq!(runs[0].human.as_deref(), Some("At midnight"));
}

#[test]
fn upcoming_skips_snoozed_sources() {
    let mut snoozed = src(Kind::Routine, "snoozed", "*/5 * * * *", true);
    snoozed.snoozed = true;
    assert!(upcoming_runs(&[snoozed], at_ten()).is_empty());
}

#[test]
fn next_run_summary_is_first_or_none() {
    let now = at_ten();
    assert_eq!(next_run_summary(&[], now), None);
    let runs = upcoming_runs(&[src(Kind::Routine, "five", "*/5 * * * *", true)], now);
    assert_eq!(next_run_summary(&runs, now), Some("in 5m".to_string()));
}

#[test]
fn attention_reason_skips_disabled_even_when_broken() {
    let mut s = src(Kind::Routine, "off", "not a cron", false);
    s.machines_empty = true;
    s.agent_registered = Some(false);
    assert_eq!(attention_reason(&s, at_ten()), None);
}

#[test]
fn attention_reason_healthy_is_none() {
    let s = src(Kind::Routine, "ok", "*/5 * * * *", true);
    assert_eq!(attention_reason(&s, at_ten()), None);
}

#[test]
fn attention_reason_dormant_outranks_other_faults() {
    let mut s = src(Kind::Routine, "r", "not a cron", true);
    s.machines_empty = true;
    s.agent_registered = Some(false);
    assert_eq!(attention_reason(&s, at_ten()), Some(AttentionReason::Dormant));
}

#[test]
fn attention_reason_dead_schedule_when_no_future_fire() {
    let s = src(Kind::Routine, "c", "not a cron", true);
    assert_eq!(attention_reason(&s, at_ten()), Some(AttentionReason::DeadSchedule));
}

#[test]
fn attention_reason_agent_missing_only_when_schedule_lives() {
    let mut s = src(Kind::Routine, "r", "*/5 * * * *", true);
    s.agent_registered = Some(false);
    assert_eq!(attention_reason(&s, at_ten()), Some(AttentionReason::AgentUnregistered));
}

#[test]
fn attention_reason_no_agent_fault_when_registered() {
    let s = src(Kind::Routine, "c", "*/5 * * * *", true);
    assert_eq!(attention_reason(&s, at_ten()), None);
}

#[test]
fn attention_reason_open_flags_last() {
    let mut s = src(Kind::Routine, "c", "*/5 * * * *", true);
    s.flag_count = 2;
    assert_eq!(attention_reason(&s, at_ten()), Some(AttentionReason::HasOpenFlags));
}

#[test]
fn attention_items_sorted_by_rank_then_label() {
    let mut dead = src(Kind::Routine, "zeta-dead", "not a cron", true);
    dead.machines_empty = false;
    let mut dormant_z = src(Kind::Routine, "zeta-dormant", "*/5 * * * *", true);
    dormant_z.machines_empty = true;
    let mut dormant_a = src(Kind::Routine, "alpha-dormant", "*/5 * * * *", true);
    dormant_a.machines_empty = true;
    let mut agent = src(Kind::Routine, "agent-missing", "*/5 * * * *", true);
    agent.agent_registered = Some(false);
    let healthy = src(Kind::Routine, "fine", "*/5 * * * *", true);

    let items = attention_items(&[dead, dormant_z, dormant_a, agent, healthy], at_ten());
    assert_eq!(items.len(), 4);
    assert_eq!(items[0].reason, AttentionReason::Dormant);
    assert_eq!(items[0].label, "alpha-dormant");
    assert_eq!(items[1].reason, AttentionReason::Dormant);
    assert_eq!(items[1].label, "zeta-dormant");
    assert_eq!(items[2].reason, AttentionReason::DeadSchedule);
    assert_eq!(items[3].reason, AttentionReason::AgentUnregistered);
}

#[test]
fn attention_items_empty_for_healthy_fleet() {
    let items = attention_items(
        &[src(Kind::Routine, "a", "*/5 * * * *", true), src(Kind::Routine, "b", "0 0 * * *", true)],
        at_ten(),
    );
    assert!(items.is_empty());
}

#[test]
fn kpis_count_attention() {
    let mut dormant = src(Kind::Routine, "d", "*/5 * * * *", true);
    dormant.machines_empty = true;
    let sources =
        vec![dormant, src(Kind::Routine, "ok", "*/5 * * * *", true), src(Kind::Routine, "off", "not a cron", false)];
    let kpis = compute_kpis(&sources, at_ten());
    assert_eq!(kpis.attention, 1);
}

#[test]
fn kpis_default_attention_is_zero() {
    assert_eq!(Kpis::default().attention, 0);
}

#[test]
fn attention_reason_rank_badge_detail_cover_all_variants() {
    for r in [AttentionReason::Dormant, AttentionReason::DeadSchedule, AttentionReason::AgentUnregistered] {
        assert!(!r.badge().is_empty());
        assert!(!r.detail().is_empty());
    }
    assert!(AttentionReason::Dormant.rank() < AttentionReason::DeadSchedule.rank());
    assert!(AttentionReason::DeadSchedule.rank() < AttentionReason::AgentUnregistered.rank());
    assert_eq!(AttentionReason::HasOpenFlags.badge(), "OPEN FLAGS");
}

#[test]
fn upcoming_run_carries_id() {
    let source = src(Kind::Routine, "daily-backup", "*/5 * * * *", true);
    let runs = upcoming_runs(&[source], at_ten());
    assert_eq!(runs[0].id, "daily-backup");
    assert_eq!(runs[0].label, "daily-backup");
}

#[test]
fn from_routine_uses_title_as_label() {
    let r = routine("r1", "Nightly sweep", "0 0 * * *", &[], false, true);
    let source = from_routine(&r, at_ten());
    assert_eq!(source.kind, Kind::Routine);
    assert_eq!(source.id, "r1");
    assert_eq!(source.label, "Nightly sweep");
    assert_eq!(source.schedule, "0 0 * * *");
    assert!(!source.enabled);
}

#[test]
fn from_routine_carries_agent_registration_and_machines() {
    let r = routine("r1", "T", "0 0 * * *", &["box-1"], true, false);
    let s = from_routine(&r, at_ten());
    assert_eq!(s.agent_registered, Some(false));
    assert!(!s.machines_empty);
    let blank = routine("r2", "T", "0 0 * * *", &["  ", ""], true, true);
    assert!(from_routine(&blank, at_ten()).machines_empty);
}

#[test]
fn from_routine_reads_snooze_state() {
    let mut r = routine("r1", "T", "0 0 * * *", &["m"], true, true);
    r.snoozed_until = Some((at_ten() + 10) as u64);
    assert!(from_routine(&r, at_ten()).snoozed);
    r.snoozed_until = None;
    r.skip_runs = Some(0);
    assert!(!from_routine(&r, at_ten()).snoozed);
}

#[test]
fn sources_of_maps_routines() {
    let sources = sources_of(&[routine("r1", "T", "0 0 * * *", &[], true, true)], at_ten());
    assert_eq!(sources.len(), 1);
    assert_eq!(sources[0].kind, Kind::Routine);
    assert_eq!(sources[0].label, "T");
}

#[test]
fn upcoming_run_routine_id_differs_from_label() {
    let r = routine("abc-uuid-123", "My Routine", "*/5 * * * *", &["m"], true, true);
    let source = from_routine(&r, at_ten());
    assert_eq!(source.id, "abc-uuid-123");
    assert_eq!(source.label, "My Routine");
    let runs = upcoming_runs(&[source], at_ten());
    assert_eq!(runs[0].id, "abc-uuid-123");
    assert_eq!(runs[0].label, "My Routine");
}

#[test]
fn given_next_fires_drive_kpis_attention_and_upcoming() {
    let now: i64 = 1_000_000;
    let mut flagged = src(Kind::Routine, "flagged", "0 0 * * *", true);
    flagged.flag_count = 2;
    let sources = vec![
        src(Kind::Routine, "dead", "0 0 * * *", true),
        src(Kind::Routine, "later", "0 0 * * *", true),
        src(Kind::Routine, "due", "*/5 * * * *", true),
        src(Kind::Routine, "off", "0 0 * * *", false),
        flagged,
    ];
    let nexts = vec![None, Some(now + 7_200), Some(now + 60), None, Some(now + 60)];

    let k = kpis_given(&sources, &nexts, now);
    assert_eq!(k.total, 5);
    assert_eq!(k.enabled, 4);
    assert_eq!(k.disabled, 1);
    assert_eq!(k.due_soon, 2);
    assert_eq!(k.attention, 2);
    assert_eq!(k.flags, 2);

    let items = attention_items_given(&sources, &nexts);
    let seen: Vec<(&str, AttentionReason)> = items.iter().map(|i| (i.label.as_str(), i.reason)).collect();
    assert_eq!(seen, vec![("dead", AttentionReason::DeadSchedule), ("flagged", AttentionReason::HasOpenFlags)]);

    let ups = upcoming_runs_given(&sources, &nexts, now);
    let order: Vec<&str> = ups.iter().map(|u| u.label.as_str()).collect();
    assert_eq!(order, vec!["due", "flagged", "later"]);
    assert!(ups[0].soon && ups[1].soon && !ups[2].soon);
    assert_eq!(ups[2].at, now + 7_200);
}

use chrono::{Local, TimeZone};
use moadim_ui::cron_jobs::{job_request, job_stats, job_stats_given, machine_options, meta_preview, metadata_error, preview_of_shape};
use moadim_ui::cron_jobs::{
    distinct_handlers, distinct_machines, filter_jobs, group_jobs, group_key, job_position, sort_jobs, unassigned_count,
    CAction, CModal, CPage, CState, CronJob, GroupBy, HandlerFacet, JobFilter, MachineFacet, SelectKind, SortCol,
    SortDir, StatusFacet, DUE_SOON_WINDOW_SECS,
};

/// A fixed reference instant 30s past the top of the hour, so a top-of-hour schedule's
/// next fire (13:00) lands ~59.5m out: inside a 1h "due soon" window.
fn now() -> i64 {
    Local.with_ymd_and_hms(2026, 6, 22, 12, 0, 30).unwrap().timestamp()
}

fn window() -> i64 {
    DUE_SOON_WINDOW_SECS
}

fn job(id: &str, handler: &str, schedule: &str, machines: &[&str], enabled: bool) -> CronJob {
    CronJob {
        id: id.into(),
        schedule: schedule.into(),
        handler: handler.into(),
        metadata: "{}".to_string(),
        machines: machines.iter().map(|m| (*m).to_string()).collect(),
        enabled,
        created_at: 0,
        updated_at: 0,
        last_manual_trigger_at: None,
        schedule_description: None,
    }
}

fn filter_with_query(q: &str) -> JobFilter {
    JobFilter { query: q.into(), ..Default::default() }
}

// ── Facet codecs ──

#[test]
fn status_facet_roundtrips_and_defaults_to_all() {
    for f in [StatusFacet::All, StatusFacet::Enabled, StatusFacet::Disabled, StatusFacet::DueSoon] {
        assert_eq!(StatusFacet::from_str(f.as_str()), f);
    }
    assert_eq!(StatusFacet::from_str("nonsense"), StatusFacet::All);
    assert_eq!(StatusFacet::default(), StatusFacet::All);
}

#[test]
fn machine_facet_roundtrips_through_select_value() {
    let any = MachineFacet::Any;
    let unassigned = MachineFacet::Unassigned;
    let specific = MachineFacet::Machine("alpha".into());
    assert_eq!(MachineFacet::from_value(&any.as_value()), any);
    assert_eq!(MachineFacet::from_value(&unassigned.as_value()), unassigned);
    assert_eq!(MachineFacet::from_value(&specific.as_value()), specific);
    assert_eq!(MachineFacet::default(), MachineFacet::Any);
}

#[test]
fn machine_facet_decodes_a_plain_id_as_specific() {
    assert_eq!(MachineFacet::from_value("worker-1"), MachineFacet::Machine("worker-1".into()));
}

#[test]
fn handler_facet_roundtrips_through_select_value() {
    let any = HandlerFacet::Any;
    let specific = HandlerFacet::Handler("backup".into());
    assert_eq!(HandlerFacet::from_value(&any.as_value()), any);
    assert_eq!(HandlerFacet::from_value(&specific.as_value()), specific);
}

// ── is_active ──

#[test]
fn default_filter_is_inactive() {
    assert!(!JobFilter::default().is_active());
}

#[test]
fn is_active_detects_each_facet() {
    assert!(filter_with_query("  x ").is_active());
    assert!(!filter_with_query("   ").is_active());
    let s = JobFilter { status: StatusFacet::Enabled, ..Default::default() };
    assert!(s.is_active());
    let m = JobFilter { machine: MachineFacet::Unassigned, ..Default::default() };
    assert!(m.is_active());
    let h = JobFilter { handler: HandlerFacet::Handler("backup".into()), ..Default::default() };
    assert!(h.is_active());
}

// ── Status facet matching ──

#[test]
fn status_all_matches_regardless_of_enabled() {
    let f = JobFilter::default();
    assert!(f.matches(&job("a", "h", "0 * * * *", &[], true), now(), window()));
    assert!(f.matches(&job("b", "h", "0 * * * *", &[], false), now(), window()));
}

#[test]
fn status_enabled_and_disabled_partition() {
    let on = job("a", "h", "0 * * * *", &[], true);
    let off = job("b", "h", "0 * * * *", &[], false);
    let enabled = JobFilter { status: StatusFacet::Enabled, ..Default::default() };
    let disabled = JobFilter { status: StatusFacet::Disabled, ..Default::default() };
    assert!(enabled.matches(&on, now(), window()));
    assert!(!enabled.matches(&off, now(), window()));
    assert!(disabled.matches(&off, now(), window()));
    assert!(!disabled.matches(&on, now(), window()));
}

#[test]
fn status_due_soon_needs_enabled_and_an_imminent_fire() {
    let f = JobFilter { status: StatusFacet::DueSoon, ..Default::default() };
    let soon = job("a", "h", "0 * * * *", &[], true);
    assert!(f.matches(&soon, now(), window()));
    let soon_off = job("b", "h", "0 * * * *", &[], false);
    assert!(!f.matches(&soon_off, now(), window()));
    let far = job("c", "h", "0 0 1 1 *", &[], true);
    assert!(!f.matches(&far, now(), window()));
}

// ── Machine facet matching ──

#[test]
fn machine_any_matches_all() {
    let f = JobFilter::default();
    assert!(f.matches(&job("a", "h", "0 * * * *", &["m1"], true), now(), window()));
    assert!(f.matches(&job("b", "h", "0 * * * *", &[], true), now(), window()));
}

#[test]
fn machine_specific_requires_membership() {
    let f = JobFilter { machine: MachineFacet::Machine("m1".into()), ..Default::default() };
    assert!(f.matches(&job("a", "h", "0 * * * *", &["m1", "m2"], true), now(), window()));
    assert!(!f.matches(&job("b", "h", "0 * * * *", &["m2"], true), now(), window()));
    assert!(!f.matches(&job("c", "h", "0 * * * *", &[], true), now(), window()));
}

#[test]
fn machine_unassigned_matches_only_empty() {
    let f = JobFilter { machine: MachineFacet::Unassigned, ..Default::default() };
    assert!(f.matches(&job("a", "h", "0 * * * *", &[], true), now(), window()));
    assert!(!f.matches(&job("b", "h", "0 * * * *", &["m1"], true), now(), window()));
}

#[test]
fn handler_facet_requires_exact_handler() {
    let f = JobFilter { handler: HandlerFacet::Handler("backup".into()), ..Default::default() };
    assert!(f.matches(&job("a", "backup", "0 * * * *", &[], true), now(), window()));
    assert!(!f.matches(&job("b", "backup-2", "0 * * * *", &[], true), now(), window()));
}

// ── Free-text matching ──

#[test]
fn query_matches_across_id_handler_and_schedule() {
    let j = job("nightly-backup", "run-backup", "0 3 * * *", &[], true);
    assert!(filter_with_query("nightly").matches(&j, now(), window()));
    assert!(filter_with_query("BACKUP").matches(&j, now(), window()));
    assert!(filter_with_query("0 3").matches(&j, now(), window()));
}

#[test]
fn query_matches_description_and_metadata() {
    let mut j = job("j1", "h", "0 3 * * *", &[], true);
    j.schedule_description = Some("Every day at 03:00".into());
    let mut meta = serde_json::Map::new();
    meta.insert("recipient".to_string(), serde_json::Value::String("ops-team@example.com".into()));
    j.metadata = serde_json::Value::Object(meta).to_string();
    assert!(filter_with_query("every day").matches(&j, now(), window()));
    assert!(filter_with_query("ops-team").matches(&j, now(), window()));
}

#[test]
fn query_is_trimmed_and_non_match_is_excluded() {
    let j = job("alpha", "beta", "0 3 * * *", &[], true);
    assert!(filter_with_query("  alpha  ").matches(&j, now(), window()));
    assert!(!filter_with_query("zeta").matches(&j, now(), window()));
}

#[test]
fn facets_and_together() {
    let f = JobFilter {
        query: "back".into(),
        status: StatusFacet::Enabled,
        machine: MachineFacet::Machine("m1".into()),
        handler: HandlerFacet::Any,
    };
    let hit = job("backup", "h", "0 * * * *", &["m1"], true);
    let wrong_machine = job("backup", "h", "0 * * * *", &["m2"], true);
    let disabled = job("backup", "h", "0 * * * *", &["m1"], false);
    let wrong_text = job("cleanup", "h", "0 * * * *", &["m1"], true);
    assert!(f.matches(&hit, now(), window()));
    assert!(!f.matches(&wrong_machine, now(), window()));
    assert!(!f.matches(&disabled, now(), window()));
    assert!(!f.matches(&wrong_text, now(), window()));
}

// ── List helpers ──

#[test]
fn filter_jobs_preserves_order_and_narrows() {
    let jobs = vec![
        job("a", "keep", "0 * * * *", &[], true),
        job("b", "drop", "0 * * * *", &[], false),
        job("c", "keep", "0 * * * *", &[], true),
    ];
    let f = JobFilter { status: StatusFacet::Enabled, ..Default::default() };
    let out = filter_jobs(&jobs, &f, now(), window());
    let ids: Vec<&str> = out.iter().map(|j| j.id.as_str()).collect();
    assert_eq!(ids, vec!["a", "c"]);
}

#[test]
fn filter_jobs_unfiltered_returns_all() {
    let jobs = vec![job("a", "h", "0 * * * *", &[], true), job("b", "h", "0 * * * *", &[], false)];
    let out = filter_jobs(&jobs, &JobFilter::default(), now(), window());
    assert_eq!(out.len(), 2);
}

#[test]
fn distinct_machines_are_sorted_and_deduped() {
    let jobs = vec![
        job("a", "h", "0 * * * *", &["m2", "m1"], true),
        job("b", "h", "0 * * * *", &["m1", "m3"], true),
        job("c", "h", "0 * * * *", &[], true),
    ];
    assert_eq!(distinct_machines(&jobs), vec!["m1", "m2", "m3"]);
}

#[test]
fn distinct_handlers_are_sorted_and_deduped() {
    let jobs = vec![
        job("a", "sync", "0 * * * *", &[], true),
        job("b", "backup", "0 * * * *", &[], true),
        job("c", "sync", "0 * * * *", &[], true),
    ];
    assert_eq!(distinct_handlers(&jobs), vec!["backup", "sync"]);
}

#[test]
fn unassigned_count_tallies_dormant_jobs() {
    let jobs = vec![
        job("a", "h", "0 * * * *", &["m1"], true),
        job("b", "h", "0 * * * *", &[], true),
        job("c", "h", "0 * * * *", &[], false),
    ];
    assert_eq!(unassigned_count(&jobs), 2);
}

// ── Sort ──

#[test]
fn sort_dir_flip_cycles() {
    assert_eq!(SortDir::Asc.flip(), SortDir::Desc);
    assert_eq!(SortDir::Desc.flip(), SortDir::Asc);
}

#[test]
fn sort_dir_default_is_asc() {
    assert_eq!(SortDir::default(), SortDir::Asc);
}

#[test]
fn sort_jobs_none_preserves_input_order() {
    let jobs = vec![
        job("c", "h", "0 * * * *", &[], true),
        job("a", "h", "0 * * * *", &[], true),
        job("b", "h", "0 * * * *", &[], true),
    ];
    let out = sort_jobs(jobs.clone(), None, SortDir::Asc, now());
    assert_eq!(out, jobs);
}

fn ids(out: &[CronJob]) -> Vec<&str> {
    out.iter().map(|j| j.id.as_str()).collect()
}

#[test]
fn sort_jobs_by_id_ascending() {
    let jobs = vec![
        job("c-job", "h", "0 * * * *", &[], true),
        job("a-job", "h", "0 * * * *", &[], true),
        job("b-job", "h", "0 * * * *", &[], true),
    ];
    let out = sort_jobs(jobs, Some(SortCol::Id), SortDir::Asc, now());
    assert_eq!(ids(&out), vec!["a-job", "b-job", "c-job"]);
}

#[test]
fn sort_jobs_by_id_descending() {
    let jobs = vec![
        job("a-job", "h", "0 * * * *", &[], true),
        job("b-job", "h", "0 * * * *", &[], true),
        job("c-job", "h", "0 * * * *", &[], true),
    ];
    let out = sort_jobs(jobs, Some(SortCol::Id), SortDir::Desc, now());
    assert_eq!(ids(&out), vec!["c-job", "b-job", "a-job"]);
}

#[test]
fn sort_jobs_by_handler_ascending() {
    let jobs = vec![
        job("j1", "zap", "0 * * * *", &[], true),
        job("j2", "alpha", "0 * * * *", &[], true),
        job("j3", "beta", "0 * * * *", &[], true),
    ];
    let out = sort_jobs(jobs, Some(SortCol::Handler), SortDir::Asc, now());
    let handlers: Vec<&str> = out.iter().map(|j| j.handler.as_str()).collect();
    assert_eq!(handlers, vec!["alpha", "beta", "zap"]);
}

#[test]
fn sort_jobs_by_handler_descending() {
    let jobs = vec![
        job("j1", "alpha", "0 * * * *", &[], true),
        job("j2", "zap", "0 * * * *", &[], true),
        job("j3", "beta", "0 * * * *", &[], true),
    ];
    let out = sort_jobs(jobs, Some(SortCol::Handler), SortDir::Desc, now());
    let handlers: Vec<&str> = out.iter().map(|j| j.handler.as_str()).collect();
    assert_eq!(handlers, vec!["zap", "beta", "alpha"]);
}

#[test]
fn sort_jobs_by_enabled_asc_disabled_first() {
    let jobs = vec![
        job("j1", "h", "0 * * * *", &[], true),
        job("j2", "h", "0 * * * *", &[], false),
        job("j3", "h", "0 * * * *", &[], true),
    ];
    let out = sort_jobs(jobs, Some(SortCol::Enabled), SortDir::Asc, now());
    assert!(!out[0].enabled);
    assert!(out[1].enabled);
    assert!(out[2].enabled);
}

#[test]
fn sort_jobs_by_enabled_desc_enabled_first() {
    let jobs = vec![
        job("j1", "h", "0 * * * *", &[], false),
        job("j2", "h", "0 * * * *", &[], true),
        job("j3", "h", "0 * * * *", &[], false),
    ];
    let out = sort_jobs(jobs, Some(SortCol::Enabled), SortDir::Desc, now());
    assert!(out[0].enabled);
    assert!(!out[1].enabled);
    assert!(!out[2].enabled);
}

#[test]
fn sort_jobs_by_updated_ascending() {
    let mut j1 = job("j1", "h", "0 * * * *", &[], true);
    j1.updated_at = 300;
    let mut j2 = job("j2", "h", "0 * * * *", &[], true);
    j2.updated_at = 100;
    let mut j3 = job("j3", "h", "0 * * * *", &[], true);
    j3.updated_at = 200;
    let out = sort_jobs(vec![j1, j2, j3], Some(SortCol::Updated), SortDir::Asc, now());
    assert_eq!(ids(&out), vec!["j2", "j3", "j1"]);
}

#[test]
fn sort_jobs_by_updated_descending() {
    let mut j1 = job("j1", "h", "0 * * * *", &[], true);
    j1.updated_at = 100;
    let mut j2 = job("j2", "h", "0 * * * *", &[], true);
    j2.updated_at = 300;
    let mut j3 = job("j3", "h", "0 * * * *", &[], true);
    j3.updated_at = 200;
    let out = sort_jobs(vec![j1, j2, j3], Some(SortCol::Updated), SortDir::Desc, now());
    assert_eq!(ids(&out), vec!["j2", "j3", "j1"]);
}

#[test]
fn sort_jobs_by_next_run_enabled_before_disabled() {
    let enabled = job("j1", "h", "0 * * * *", &[], true);
    let disabled = job("j2", "h", "0 * * * *", &[], false);
    let out = sort_jobs(vec![disabled.clone(), enabled.clone()], Some(SortCol::NextRun), SortDir::Asc, now());
    assert_eq!(out[0].id, enabled.id);
    assert_eq!(out[1].id, disabled.id);
}

#[test]
fn sort_jobs_by_next_run_desc_disabled_before_enabled() {
    let enabled = job("j1", "h", "0 * * * *", &[], true);
    let disabled = job("j2", "h", "0 * * * *", &[], false);
    let out = sort_jobs(vec![enabled.clone(), disabled.clone()], Some(SortCol::NextRun), SortDir::Desc, now());
    assert_eq!(out[0].id, disabled.id);
    assert_eq!(out[1].id, enabled.id);
}

#[test]
fn sort_jobs_by_next_run_soonest_first() {
    let hourly = job("hourly", "h", "0 * * * *", &[], true);
    let yearly = job("yearly", "h", "0 0 1 1 *", &[], true);
    let out = sort_jobs(vec![yearly, hourly], Some(SortCol::NextRun), SortDir::Asc, now());
    assert_eq!(ids(&out), vec!["hourly", "yearly"]);
}

#[test]
fn sort_jobs_stable_tiebreak_by_id() {
    let jobs = vec![
        job("beta", "same-handler", "0 * * * *", &[], true),
        job("alpha", "same-handler", "0 * * * *", &[], true),
    ];
    let out = sort_jobs(jobs, Some(SortCol::Handler), SortDir::Asc, now());
    assert_eq!(out[0].id, "alpha");
    assert_eq!(out[1].id, "beta");
}

// ── GroupBy codec ──

#[test]
fn group_by_as_str_roundtrips() {
    for by in [GroupBy::Flat, GroupBy::Handler, GroupBy::Machine, GroupBy::Status] {
        assert_eq!(GroupBy::from_str(by.as_str()), by);
    }
}

#[test]
fn group_by_default_is_none() {
    assert_eq!(GroupBy::default(), GroupBy::Flat);
}

#[test]
fn group_by_unknown_token_decodes_to_none() {
    assert_eq!(GroupBy::from_str("bogus"), GroupBy::Flat);
    assert_eq!(GroupBy::from_str(""), GroupBy::Flat);
}

#[test]
fn group_by_labels() {
    assert_eq!(GroupBy::Flat.label(), "None");
    assert_eq!(GroupBy::Handler.label(), "Handler");
    assert_eq!(GroupBy::Flat.as_str(), "none");
}

// ── group_key ──

#[test]
fn group_key_handler_returns_handler_field() {
    let j = job("id1", "git-sync", "0 * * * *", &["m1"], true);
    assert_eq!(group_key(&j, GroupBy::Handler), "git-sync");
}

#[test]
fn group_key_machine_returns_first_machine() {
    let j = job("id1", "h", "0 * * * *", &["alpha", "beta"], true);
    assert_eq!(group_key(&j, GroupBy::Machine), "alpha");
}

#[test]
fn group_key_machine_returns_unassigned_when_no_machines() {
    let j = job("id1", "h", "0 * * * *", &[], true);
    assert_eq!(group_key(&j, GroupBy::Machine), "(unassigned)");
}

#[test]
fn group_key_status_enabled() {
    let j = job("id1", "h", "0 * * * *", &[], true);
    assert_eq!(group_key(&j, GroupBy::Status), "Enabled");
}

#[test]
fn group_key_status_disabled() {
    let j = job("id1", "h", "0 * * * *", &[], false);
    assert_eq!(group_key(&j, GroupBy::Status), "Disabled");
}

#[test]
fn group_key_none_returns_empty_string() {
    let j = job("id1", "h", "0 * * * *", &[], true);
    assert_eq!(group_key(&j, GroupBy::Flat), "");
}

// ── group_jobs ──

#[test]
fn group_jobs_none_returns_single_group_with_all_jobs() {
    let jobs = vec![job("a", "handler-a", "0 * * * *", &[], true), job("b", "handler-b", "0 * * * *", &[], false)];
    let groups = group_jobs(&jobs, GroupBy::Flat);
    assert_eq!(groups.len(), 1);
    assert_eq!(groups[0].0, "");
    assert_eq!(groups[0].1.len(), 2);
}

#[test]
fn group_jobs_by_handler_creates_one_group_per_handler() {
    let jobs = vec![
        job("a", "backup", "0 * * * *", &[], true),
        job("b", "git-sync", "0 * * * *", &[], true),
        job("c", "backup", "0 * * * *", &[], true),
    ];
    let groups = group_jobs(&jobs, GroupBy::Handler);
    assert_eq!(groups.len(), 2);
    assert_eq!(groups[0].0, "backup");
    assert_eq!(groups[0].1.len(), 2);
    assert_eq!(groups[1].0, "git-sync");
    assert_eq!(groups[1].1.len(), 1);
}

#[test]
fn group_jobs_by_handler_preserves_input_order_within_group() {
    let jobs = vec![job("first", "backup", "0 * * * *", &[], true), job("second", "backup", "0 * * * *", &[], true)];
    let groups = group_jobs(&jobs, GroupBy::Handler);
    assert_eq!(groups[0].1[0].id, "first");
    assert_eq!(groups[0].1[1].id, "second");
}

#[test]
fn group_jobs_by_machine_separates_unassigned() {
    let jobs = vec![
        job("a", "h", "0 * * * *", &["worker-1"], true),
        job("b", "h", "0 * * * *", &[], true),
        job("c", "h", "0 * * * *", &["worker-1"], true),
    ];
    let groups = group_jobs(&jobs, GroupBy::Machine);
    assert_eq!(groups.len(), 2);
    assert_eq!(groups[0].0, "(unassigned)");
    assert_eq!(groups[0].1.len(), 1);
    assert_eq!(groups[1].0, "worker-1");
    assert_eq!(groups[1].1.len(), 2);
}

#[test]
fn group_jobs_by_status_splits_enabled_and_disabled() {
    let jobs = vec![
        job("a", "h", "0 * * * *", &[], true),
        job("b", "h", "0 * * * *", &[], false),
        job("c", "h", "0 * * * *", &[], true),
    ];
    let groups = group_jobs(&jobs, GroupBy::Status);
    assert_eq!(groups.len(), 2);
    assert_eq!(groups[0].0, "Disabled");
    assert_eq!(groups[0].1.len(), 1);
    assert_eq!(groups[1].0, "Enabled");
    assert_eq!(groups[1].1.len(), 2);
}

#[test]
fn group_jobs_empty_input_returns_empty_for_grouped_dimensions() {
    for by in [GroupBy::Handler, GroupBy::Machine, GroupBy::Status] {
        let groups = group_jobs(&[], by);
        assert!(groups.is_empty(), "expected empty for {by:?}");
    }
}

#[test]
fn group_jobs_groups_sorted_alphabetically() {
    let jobs = vec![
        job("a", "zebra", "0 * * * *", &[], true),
        job("b", "alpha", "0 * * * *", &[], true),
        job("c", "middle", "0 * * * *", &[], true),
    ];
    let groups = group_jobs(&jobs, GroupBy::Handler);
    let labels: Vec<&str> = groups.iter().map(|(l, _)| l.as_str()).collect();
    assert_eq!(labels, ["alpha", "middle", "zebra"]);
}

// ── Page reducer ──

fn loaded_state(jobs: Vec<CronJob>) -> CState {
    CState::default().reduce(CAction::Loaded(jobs))
}

fn three_jobs() -> Vec<CronJob> {
    vec![
        job("a", "h", "0 * * * *", &[], true),
        job("b", "h", "0 * * * *", &[], true),
        job("c", "h", "0 * * * *", &[], true),
    ]
}

#[test]
fn reducer_starts_loading_and_loaded_clears_it() {
    let s = CState::default();
    assert!(s.loading);
    let s = s.reduce(CAction::Loaded(three_jobs()));
    assert!(!s.loading);
    assert_eq!(s.jobs.len(), 3);
}

#[test]
fn reducer_reload_drops_vanished_selection_and_anchor() {
    let s = loaded_state(three_jobs());
    let s = s.reduce(CAction::SelectJob { id: "b".into(), kind: SelectKind::Only });
    let s = s.reduce(CAction::SelectJob { id: "c".into(), kind: SelectKind::Toggle });
    assert_eq!(s.selected, vec!["b", "c"]);
    let s = s.reduce(CAction::Loaded(vec![job("b", "h", "0 * * * *", &[], true)]));
    assert_eq!(s.selected, vec!["b"]);
    assert_eq!(s.select_anchor, None);
}

#[test]
fn reducer_shift_click_selects_range_from_anchor() {
    let s = loaded_state(three_jobs());
    let s = s.reduce(CAction::SelectJob { id: "c".into(), kind: SelectKind::Only });
    let s = s.reduce(CAction::SelectJob { id: "a".into(), kind: SelectKind::Range });
    assert_eq!(s.selected, vec!["a", "b", "c"]);
    assert_eq!(s.select_anchor, Some("c".to_string()));
}

#[test]
fn reducer_shift_click_on_unknown_id_adds_only_it() {
    let s = loaded_state(three_jobs());
    let s = s.reduce(CAction::SelectJob { id: "zz".into(), kind: SelectKind::Range });
    assert_eq!(s.selected, vec!["zz"]);
}

#[test]
fn reducer_toggle_twice_restores_selection() {
    let s = loaded_state(three_jobs());
    let s = s.reduce(CAction::SelectJob { id: "a".into(), kind: SelectKind::Toggle });
    let s = s.reduce(CAction::SelectJob { id: "a".into(), kind: SelectKind::Toggle });
    assert!(s.selected.is_empty());
}

#[test]
fn reducer_bulk_delete_counts_selection() {
    let s = loaded_state(three_jobs());
    let s = s.reduce(CAction::SelectAll(vec!["a".into(), "c".into(), "a".into()]));
    assert_eq!(s.selected, vec!["a", "c"]);
    let s = s.reduce(CAction::OpenConfirmBulkDelete);
    assert_eq!(s.modal, CModal::ConfirmBulkDelete { count: 2 });
    let s = s.reduce(CAction::CloseModal);
    assert_eq!(s.modal, CModal::Closed);
}

#[test]
fn reducer_remove_and_remove_many_forget_ids() {
    let s = loaded_state(three_jobs());
    let s = s.reduce(CAction::SelectAll(vec!["a".into(), "b".into(), "c".into()]));
    let s = s.reduce(CAction::Remove("b".into()));
    assert_eq!(ids(&s.jobs), vec!["a", "c"]);
    assert_eq!(s.selected, vec!["a", "c"]);
    let s = s.reduce(CAction::RemoveMany(vec!["a".into(), "c".into()]));
    assert!(s.jobs.is_empty());
    assert!(s.selected.is_empty());
}

#[test]
fn reducer_upsert_replaces_or_appends() {
    let s = loaded_state(three_jobs());
    let s = s.reduce(CAction::Upsert(job("b", "renamed", "0 * * * *", &[], false)));
    assert_eq!(ids(&s.jobs), vec!["a", "b", "c"]);
    assert_eq!(s.jobs[1].handler, "renamed");
    let s = s.reduce(CAction::Upsert(job("d", "h", "0 * * * *", &[], true)));
    assert_eq!(ids(&s.jobs), vec!["a", "b", "c", "d"]);
    assert_eq!(job_position(&s.jobs, "d"), Some(3));
}

#[test]
fn reducer_set_sort_toggles_direction_on_active_column() {
    let s = loaded_state(three_jobs());
    let s = s.reduce(CAction::SetSort(SortCol::Id));
    assert_eq!(s.sort_col, Some(SortCol::Id));
    assert_eq!(s.sort_dir, SortDir::Asc);
    let s = s.reduce(CAction::SetSort(SortCol::Id));
    assert_eq!(s.sort_dir, SortDir::Desc);
    let s = s.reduce(CAction::SetSort(SortCol::Handler));
    assert_eq!(s.sort_col, Some(SortCol::Handler));
    assert_eq!(s.sort_dir, SortDir::Asc);
}

#[test]
fn reducer_current_machine_narrows_machine_facet_and_clear_resets() {
    let s = loaded_state(three_jobs());
    let s = s.reduce(CAction::CurrentMachineLoaded("m1".into()));
    assert_eq!(s.current_machine, Some("m1".to_string()));
    assert_eq!(s.filter.machine, MachineFacet::Machine("m1".into()));
    let s = s.reduce(CAction::SetQuery("x".into()));
    assert!(s.filter.is_active());
    let s = s.reduce(CAction::ClearFilters);
    assert!(!s.filter.is_active());
}

#[test]
fn reducer_page_navigation() {
    let s = loaded_state(three_jobs());
    let s = s.reduce(CAction::GoToLogs("a".into()));
    assert_eq!(s.page, CPage::Logs("a".into()));
    let s = s.reduce(CAction::GoToList);
    assert_eq!(s.page, CPage::List);
    let s = s.reduce(CAction::SetGroupBy(GroupBy::Machine));
    assert_eq!(s.group_by, GroupBy::Machine);
}

#[test]
fn meta_preview_summarizes_the_json_shape() {
    assert_eq!(meta_preview("null"), "\u{2014}");
    assert_eq!(meta_preview("{}"), "{}");
    assert_eq!(meta_preview("{\"recipient\":\"ops\"}"), "{recipient}");
    assert_eq!(meta_preview("{\"a\":1,\"b\":2,\"c\":3}"), "{3 keys}");
    assert_eq!(meta_preview("\"a fairly long string value here\""), "\"a fairly long string va");
    assert_eq!(meta_preview("42"), "42");
    assert_eq!(preview_of_shape(false, &Some(vec!["k".to_string()]), "ignored"), "{k}");
    assert_eq!(preview_of_shape(false, &None, "[1,2]"), "[1,2]");
}

#[test]
fn metadata_error_flags_only_text_that_is_no_json() {
    assert_eq!(metadata_error(""), None);
    assert_eq!(metadata_error("   \n"), None);
    assert_eq!(metadata_error("{\"recipient\":\"ops\"}"), None);
    let err = metadata_error("{\"recipient\":").expect("a parse error");
    assert!(err.starts_with("\u{21B3} "));
    assert!(err.len() > "\u{21B3} ".len());
}

#[test]
fn job_request_follows_the_form_fields() {
    let machines = vec!["m1".to_string()];
    assert!(job_request("@daily", "h", "{oops", &machines, true).is_none());
    let req = job_request("@daily", "h", "  ", &machines, false).expect("blank metadata saves");
    assert_eq!(req.schedule, "@daily");
    assert_eq!(req.handler, "h");
    assert_eq!(req.metadata, "null");
    assert_eq!(req.machines, machines);
    assert!(!req.enabled);
    let req = job_request("0 0 * * * * *", "mail", "{\"to\": \"ops\"}", &machines, true).expect("valid metadata saves");
    assert_eq!(req.metadata, "{\"to\": \"ops\"}");
    let upd = req.into_update();
    assert_eq!(upd.schedule.as_deref(), Some("0 0 * * * * *"));
    assert_eq!(upd.handler.as_deref(), Some("mail"));
    assert_eq!(upd.metadata.as_deref(), Some("{\"to\": \"ops\"}"));
    assert_eq!(upd.machines, Some(machines));
    assert_eq!(upd.enabled, Some(true));
}

#[test]
fn job_tiles_count_from_given_next_fires() {
    let jobs = vec![
        job("a", "h", "@daily", &["m"], true),
        job("b", "h", "@daily", &[], false),
        job("c", "h", "@daily", &["m"], true),
    ];
    let t: i64 = 1_000;
    let s = job_stats_given(&jobs, &[Some(t + 60), Some(t + 60), Some(t + 10_000)], t, 3_600);
    assert_eq!((s.total, s.enabled, s.disabled, s.due_soon), (3, 2, 1, 1));
}

#[test]
fn job_tiles_look_up_next_fires() {
    let jobs = vec![
        job("hourly", "h", "0 0 * * * * *", &["m"], true),
        job("off", "h", "0 0 * * * * *", &["m"], false),
        job("daily", "h", "0 0 3 * * * *", &["m"], true),
    ];
    let s = job_stats(&jobs, now(), window());
    assert_eq!((s.total, s.enabled, s.disabled, s.due_soon), (3, 2, 1, 1));
}

#[test]
fn status_tile_click_toggles_the_facet() {
    assert_eq!(StatusFacet::All.toggled(StatusFacet::Enabled), StatusFacet::Enabled);
    assert_eq!(StatusFacet::Enabled.toggled(StatusFacet::Enabled), StatusFacet::All);
    assert_eq!(StatusFacet::Enabled.toggled(StatusFacet::DueSoon), StatusFacet::DueSoon);
}

#[test]
fn header_checkbox_selects_the_visible_rows_or_clears_them() {
    let s = loaded_state(three_jobs());
    let visible = vec!["a".to_string(), "b".to_string()];
    let action = s.select_all_toggle(visible.clone());
    assert!(matches!(&action, CAction::SelectAll(ids) if *ids == visible));
    let s = s.reduce(action);
    assert!(matches!(s.select_all_toggle(visible.clone()), CAction::ClearSelection));
    assert!(matches!(s.select_all_toggle(vec!["a".to_string(), "c".to_string()]), CAction::SelectAll(_)));
    assert!(matches!(s.select_all_toggle(Vec::new()), CAction::SelectAll(ids) if ids.is_empty()));
}

#[test]
fn machine_options_include_the_current_machine() {
    let jobs = vec![job("a", "h", "@daily", &["zeta", "alpha"], true), job("b", "h", "@daily", &["alpha"], true)];
    assert_eq!(machine_options(&jobs, &None), vec!["alpha".to_string(), "zeta".to_string()]);
    assert_eq!(
        machine_options(&jobs, &Some("mid".to_string())),
        vec!["alpha".to_string(), "mid".to_string(), "zeta".to_string()]
    );
    assert_eq!(machine_options(&jobs, &Some("zeta".to_string())), vec!["alpha".to_string(), "zeta".to_string()]);
}

#[test]
fn reducer_sorts_a_selection_that_was_not_kept_sorted() {
    let mut s = loaded_state(three_jobs());
    s.selected = vec!["c".to_string(), "a".to_string(), "c".to_string()];
    let s = s.reduce(CAction::SetQuery("x".into()));
    assert_eq!(s.selected, vec!["a".to_string(), "c".to_string()]);
}

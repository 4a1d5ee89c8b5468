use chrono::{Local, TimeZone};
use moadim_ui::routines::{
    clone_title, distinct_agents, form_ready, routine_machine_options, routine_request, routine_stats, routine_stats_given, distinct_machines_r, distinct_repositories, filter_routines, format_ttl,
    group_routines, ics_feed_url, last_fire_at, parse_ttl, repos_to_text, routine_group_key, routine_health,
    sort_routines, tags_to_text, text_to_repos, text_to_tags, AgentFacet, LockStatus, RAction, RCol, RDir,
    RGroupBy, RModal, RPage, RState, Repository, RepositoryFacet, Routine, RoutineFilter, RoutineHealth,
    RoutineMachineFacet, RoutineStatusFacet, ROUTINE_DUE_SOON_WINDOW_SECS,
};

fn now() -> i64 {
    Local.with_ymd_and_hms(2026, 6, 22, 12, 0, 30).unwrap().timestamp()
}

fn window() -> i64 {
    ROUTINE_DUE_SOON_WINDOW_SECS
}

fn routine(id: &str, title: &str, agent: &str, schedule: &str, machines: &[&str], enabled: bool) -> Routine {
    Routine {
        id: id.into(),
        schedule: schedule.into(),
        title: title.into(),
        agent: agent.into(),
        prompt: String::new(),
        repositories: vec![],
        machines: machines.iter().map(|m| (*m).to_string()).collect(),
        enabled,
        source: String::new(),
        created_at: 0,
        updated_at: 0,
        last_manual_trigger_at: None,
        last_scheduled_trigger_at: None,
        snoozed_until: None,
        skip_runs: None,
        ttl_secs: None,
        tags: vec![],
        agent_registered: true,
        file_path: String::new(),
        schedule_description: None,
        flag_count: 0,
    }
}

fn repo(url: &str, branch: Option<&str>) -> Repository {
    Repository { repository: url.into(), branch: branch.map(|b| b.to_string()) }
}

fn ids(rs: &[Routine]) -> Vec<&str> {
    rs.iter().map(|r| r.id.as_str()).collect()
}

#[test]
fn routine_facets_roundtrip_through_their_values() {
    for f in [
        RoutineStatusFacet::All,
        RoutineStatusFacet::Enabled,
        RoutineStatusFacet::Disabled,
        RoutineStatusFacet::Dormant,
        RoutineStatusFacet::DueSoon,
    ] {
        assert_eq!(RoutineStatusFacet::from_str(f.as_str()), f);
    }
    assert_eq!(RoutineStatusFacet::from_str("bogus"), RoutineStatusFacet::All);
    let m = RoutineMachineFacet::Machine("box".into());
    assert_eq!(RoutineMachineFacet::from_value(&m.as_value()), m);
    assert_eq!(RoutineMachineFacet::from_value(&RoutineMachineFacet::Unassigned.as_value()), RoutineMachineFacet::Unassigned);
    assert_eq!(AgentFacet::from_value(&AgentFacet::All.as_value()), AgentFacet::All);
    assert_eq!(AgentFacet::from_value("codex"), AgentFacet::Named("codex".into()));
    assert_eq!(RepositoryFacet::from_value(&RepositoryFacet::All.as_value()), RepositoryFacet::All);
}

#[test]
fn routine_filter_default_is_inactive_and_facets_activate_it() {
    assert!(!RoutineFilter::default().is_active());
    let f = RoutineFilter { agent: AgentFacet::Named("codex".into()), ..Default::default() };
    assert!(f.is_active());
    let f = RoutineFilter { repository: RepositoryFacet::Named("r".into()), ..Default::default() };
    assert!(f.is_active());
}

#[test]
fn routine_filter_status_and_dormant() {
    let dormant = routine("a", "A", "codex", "0 * * * *", &[], true);
    let placed = routine("b", "B", "codex", "0 * * * *", &["m1"], true);
    let f = RoutineFilter { status: RoutineStatusFacet::Dormant, ..Default::default() };
    assert!(f.matches(&dormant, now(), window()));
    assert!(!f.matches(&placed, now(), window()));
    let due = RoutineFilter { status: RoutineStatusFacet::DueSoon, ..Default::default() };
    assert!(due.matches(&placed, now(), window()));
    let yearly = routine("c", "C", "codex", "0 0 1 1 *", &["m1"], true);
    assert!(!due.matches(&yearly, now(), window()));
}

#[test]
fn routine_query_searches_repositories_and_description() {
    let mut r = routine("a", "Nightly triage", "codex", "0 3 * * *", &[], true);
    r.repositories = vec![repo("https://git.example/Alpha", None), repo("https://git.example/beta", Some("dev"))];
    r.schedule_description = Some("At 03:00".into());
    let q = |s: &str| RoutineFilter { query: s.into(), ..Default::default() };
    assert!(q("alpha").matches(&r, now(), window()));
    assert!(q("TRIAGE").matches(&r, now(), window()));
    assert!(q("at 03").matches(&r, now(), window()));
    assert!(!q("gamma").matches(&r, now(), window()));
    let by_repo = RoutineFilter { repository: RepositoryFacet::Named("https://git.example/beta".into()), ..Default::default() };
    assert!(by_repo.matches(&r, now(), window()));
    let other_repo = RoutineFilter { repository: RepositoryFacet::Named("https://git.example/zeta".into()), ..Default::default() };
    assert!(!other_repo.matches(&r, now(), window()));
}

#[test]
fn last_fire_takes_the_latest_trigger() {
    let mut r = routine("a", "A", "codex", "0 * * * *", &[], true);
    assert_eq!(last_fire_at(&r), None);
    r.last_manual_trigger_at = Some(10);
    assert_eq!(last_fire_at(&r), Some(10));
    r.last_scheduled_trigger_at = Some(20);
    assert_eq!(last_fire_at(&r), Some(20));
    r.last_manual_trigger_at = Some(30);
    assert_eq!(last_fire_at(&r), Some(30));
}

#[test]
fn routine_health_covers_each_state() {
    let off = routine("a", "A", "codex", "0 * * * *", &["m1"], false);
    assert_eq!(routine_health(&off, now()), RoutineHealth::Disabled);
    let dormant = routine("b", "B", "codex", "0 * * * *", &["  "], true);
    assert_eq!(routine_health(&dormant, now()), RoutineHealth::Dormant);
    let dead = routine("c", "C", "codex", "not a cron", &["m1"], true);
    assert_eq!(routine_health(&dead, now()), RoutineHealth::DeadSchedule);
    let mut missing = routine("d", "D", "codex", "0 * * * *", &["m1"], true);
    missing.agent_registered = false;
    assert_eq!(routine_health(&missing, now()), RoutineHealth::AgentMissing);
    let mut snoozed = routine("e", "E", "codex", "0 * * * *", &["m1"], true);
    snoozed.skip_runs = Some(2);
    assert_eq!(routine_health(&snoozed, now()), RoutineHealth::Snoozed);
    let mut until = routine("f", "F", "codex", "0 * * * *", &["m1"], true);
    until.snoozed_until = Some((now() + 60) as u64);
    assert_eq!(routine_health(&until, now()), RoutineHealth::Snoozed);
    until.snoozed_until = Some((now() - 60) as u64);
    assert_eq!(routine_health(&until, now()), RoutineHealth::Healthy);
    assert_eq!(RoutineHealth::DeadSchedule.badge(), "DEAD SCHEDULE");
    assert_eq!(RoutineHealth::AgentMissing.badge_class(), "health-badge agent-missing");
    assert!(RoutineHealth::Dormant.priority() < RoutineHealth::Healthy.priority());
}

#[test]
fn filter_routines_keeps_order() {
    let rs = vec![
        routine("a", "A", "codex", "0 * * * *", &[], true),
        routine("b", "B", "gemini", "0 * * * *", &[], true),
        routine("c", "C", "codex", "0 * * * *", &[], false),
    ];
    let f = RoutineFilter { agent: AgentFacet::Named("codex".into()), ..Default::default() };
    assert_eq!(ids(&filter_routines(&rs, &f, now(), window())), vec!["a", "c"]);
    assert_eq!(filter_routines(&rs, &RoutineFilter::default(), now(), window()).len(), 3);
}

#[test]
fn distinct_values_are_sorted_and_deduped() {
    let mut a = routine("a", "A", "gemini", "0 * * * *", &["m2", "m1"], true);
    a.repositories = vec![repo("r2", None), repo("r1", None)];
    let mut b = routine("b", "B", "codex", "0 * * * *", &["m1"], true);
    b.repositories = vec![repo("r1", Some("main"))];
    let rs = vec![a, b];
    assert_eq!(distinct_agents(&rs), vec!["codex", "gemini"]);
    assert_eq!(distinct_machines_r(&rs), vec!["m1", "m2"]);
    assert_eq!(distinct_repositories(&rs), vec!["r1", "r2"]);
}

#[test]
fn routine_grouping_by_agent_and_machine() {
    let rs = vec![
        routine("a", "A", "gemini", "0 * * * *", &["m1"], true),
        routine("b", "B", "codex", "0 * * * *", &[], true),
        routine("c", "C", "gemini", "0 * * * *", &["m1"], false),
    ];
    assert_eq!(routine_group_key(&rs[1], RGroupBy::Machine), "(unassigned)");
    assert_eq!(routine_group_key(&rs[2], RGroupBy::Status), "Disabled");
    let groups = group_routines(&rs, RGroupBy::Agent);
    assert_eq!(groups.len(), 2);
    assert_eq!(groups[0].0, "codex");
    assert_eq!(ids(&groups[1].1), vec!["a", "c"]);
    let flat = group_routines(&rs, RGroupBy::Flat);
    assert_eq!(flat.len(), 1);
    assert_eq!(flat[0].1.len(), 3);
    assert_eq!(RGroupBy::from_str(RGroupBy::Agent.as_str()), RGroupBy::Agent);
    assert_eq!(RGroupBy::from_str("bogus"), RGroupBy::Flat);
    assert_eq!(RGroupBy::Machine.label(), "Machine");
}

#[test]
fn sort_routines_by_title_ignores_case_and_breaks_ties_by_id() {
    let rs = vec![
        routine("3", "beta", "codex", "0 * * * *", &[], true),
        routine("2", "Alpha", "codex", "0 * * * *", &[], true),
        routine("1", "BETA", "codex", "0 * * * *", &[], true),
    ];
    let out = sort_routines(rs, Some(RCol::Title), RDir::Asc, now());
    assert_eq!(ids(&out), vec!["2", "1", "3"]);
}

#[test]
fn sort_routines_by_health_puts_broken_first() {
    let rs = vec![
        routine("ok", "A", "codex", "0 * * * *", &["m1"], true),
        routine("off", "B", "codex", "0 * * * *", &["m1"], false),
        routine("dormant", "C", "codex", "0 * * * *", &[], true),
    ];
    let out = sort_routines(rs, Some(RCol::Health), RDir::Asc, now());
    assert_eq!(ids(&out), vec!["dormant", "off", "ok"]);
}

#[test]
fn sort_routines_by_last_fire_never_fired_first() {
    let mut a = routine("a", "A", "codex", "0 * * * *", &[], true);
    a.last_manual_trigger_at = Some(50);
    let b = routine("b", "B", "codex", "0 * * * *", &[], true);
    let mut c = routine("c", "C", "codex", "0 * * * *", &[], true);
    c.last_scheduled_trigger_at = Some(10);
    let out = sort_routines(vec![a, b, c], Some(RCol::LastFire), RDir::Asc, now());
    assert_eq!(ids(&out), vec!["b", "c", "a"]);
    let none = sort_routines(out, None, RDir::Desc, now());
    assert_eq!(ids(&none), vec!["b", "c", "a"]);
}

#[test]
fn sort_routines_by_next_run_soonest_first_and_desc_reverses() {
    let rs = vec![
        routine("yearly", "A", "codex", "0 0 1 1 *", &[], true),
        routine("off", "B", "codex", "0 * * * *", &[], false),
        routine("hourly", "C", "codex", "0 * * * *", &[], true),
    ];
    let asc = sort_routines(rs, Some(RCol::NextRun), RDir::Asc, now());
    assert_eq!(ids(&asc), vec!["hourly", "yearly", "off"]);
    let desc = sort_routines(asc, Some(RCol::NextRun), RDir::Desc, now());
    assert_eq!(ids(&desc), vec!["off", "yearly", "hourly"]);
}

#[test]
fn routines_reducer_selection_and_removal() {
    let s = RState::default();
    assert!(s.loading);
    let rs = vec![
        routine("a", "A", "codex", "0 * * * *", &[], true),
        routine("b", "B", "codex", "0 * * * *", &[], true),
    ];
    let s = s.reduce(RAction::Loaded(rs));
    assert!(!s.loading);
    let s = s.reduce(RAction::SelectRoutine("b".into()));
    let s = s.reduce(RAction::SelectRoutine("a".into()));
    assert_eq!(s.selected, vec!["a", "b"]);
    let s = s.reduce(RAction::SelectRoutine("a".into()));
    assert_eq!(s.selected, vec!["b"]);
    let s = s.reduce(RAction::OpenConfirmBulkDelete);
    assert_eq!(s.modal, RModal::ConfirmBulkDelete { count: 1 });
    let s = s.reduce(RAction::Remove("b".into()));
    assert_eq!(ids(&s.routines), vec!["a"]);
    assert!(s.selected.is_empty());
    let s = s.reduce(RAction::Loaded(vec![]));
    assert!(s.routines.is_empty());
}

#[test]
fn routines_reducer_clone_sort_and_lock() {
    let s = RState::default().reduce(RAction::Loaded(vec![routine("a", "Daily", "codex", "0 * * * *", &[], true)]));
    let s = s.reduce(RAction::GoToClone("a".into()));
    match &s.page {
        RPage::Clone(r) => assert_eq!(r.title, "Daily"),
        _ => panic!("expected the clone page"),
    }
    let s = s.reduce(RAction::GoToClone("missing".into()));
    assert!(matches!(s.page, RPage::Clone(_)));
    let s = s.reduce(RAction::SortByCol(RCol::Title));
    let s = s.reduce(RAction::SortByCol(RCol::Title));
    assert_eq!(s.sort_dir, RDir::Desc);
    let s = s.reduce(RAction::LockStatusLoaded(LockStatus { shared: true, local: false, locked: true }));
    assert_eq!(s.lock_status, Some(LockStatus { shared: true, local: false, locked: true }));
    let s = s.reduce(RAction::CurrentMachineLoaded("m9".into()));
    assert_eq!(s.filter.machine, RoutineMachineFacet::Machine("m9".into()));
    let s = s.reduce(RAction::ClearFilters);
    assert!(!s.filter.is_active());
    let s = s.reduce(RAction::Upsert(Box::new(routine("z", "Z", "codex", "0 * * * *", &[], true))));
    assert_eq!(ids(&s.routines), vec!["a", "z"]);
}

#[test]
fn clone_title_adds_the_prefix_once() {
    assert_eq!(clone_title("Daily"), "Copy of Daily");
    assert_eq!(clone_title("Copy of Daily"), "Copy of Daily");
    assert_eq!(clone_title(""), "Copy of ");
}

#[test]
fn repositories_round_trip_through_text() {
    let repos = vec![repo("https://a", Some("main")), repo("https://b", None), repo("https://c", Some(""))];
    let text = repos_to_text(&repos);
    assert_eq!(text, "https://a main\nhttps://b\nhttps://c");
    let back = text_to_repos("https://a main\n\n  https://b  \r\nhttps://c x y");
    assert_eq!(back, vec![repo("https://a", Some("main")), repo("https://b", None), repo("https://c", Some("x"))]);
}

#[test]
fn tags_round_trip_through_text() {
    let tags = vec!["ops".to_string(), "nightly".to_string()];
    assert_eq!(tags_to_text(&tags), "ops, nightly");
    assert_eq!(text_to_tags(" ops , ,nightly,"), tags);
    assert!(text_to_tags("").is_empty());
}

#[test]
fn ttl_parses_and_formats() {
    assert_eq!(parse_ttl("   "), None);
    assert_eq!(parse_ttl(" 3600 "), Some(3600));
    assert_eq!(parse_ttl("+42"), Some(42));
    assert_eq!(parse_ttl("-1"), None);
    assert_eq!(parse_ttl("12x"), None);
    assert_eq!(parse_ttl("18446744073709551615"), Some(u64::MAX));
    assert_eq!(parse_ttl("18446744073709551616"), None);
    assert_eq!(format_ttl(None), "default");
    assert_eq!(format_ttl(Some(0)), "0s");
    assert_eq!(format_ttl(Some(604_800)), "7d");
    assert_eq!(format_ttl(Some(43_200)), "12h");
    assert_eq!(format_ttl(Some(1_800)), "30m");
    assert_eq!(format_ttl(Some(45)), "45s");
}

#[test]
fn ics_feed_url_appends_the_feed_path() {
    assert_eq!(ics_feed_url("http://localhost:8080"), "http://localhost:8080/api/v1/routines.ics");
}

#[test]
fn routine_form_needs_title_schedule_agent_and_prompt() {
    assert!(form_ready("t", "@daily", "codex", "p"));
    assert!(!form_ready("  ", "@daily", "codex", "p"));
    assert!(!form_ready("t", "", "codex", "p"));
    assert!(!form_ready("t", "@daily", "\t", "p"));
    assert!(!form_ready("t", "@daily", "codex", "\n"));
    let machines = vec!["m1".to_string()];
    assert!(routine_request("", "@daily", "codex", "p", "", &machines, true, "", "").is_none());
}

#[test]
fn routine_request_reads_the_form_text() {
    let machines = vec!["m1".to_string(), "m2".to_string()];
    let req = routine_request(
        "nightly",
        "@daily",
        "codex",
        "triage",
        "org/a\n\norg/b dev\n",
        &machines,
        false,
        " 3600 ",
        "ops, , nightly ",
    )
    .expect("a complete form");
    assert_eq!(req.title, "nightly");
    assert_eq!(req.schedule, "@daily");
    assert_eq!(req.agent, "codex");
    assert_eq!(req.prompt, "triage");
    assert_eq!(req.repositories, text_to_repos("org/a\n\norg/b dev\n"));
    assert_eq!(req.repositories.len(), 2);
    assert_eq!(req.machines, machines);
    assert!(!req.enabled);
    assert_eq!(req.ttl_secs, Some(3600));
    assert_eq!(req.tags, vec!["ops".to_string(), "nightly".to_string()]);
    let upd = req.into_update();
    assert_eq!(upd.title.as_deref(), Some("nightly"));
    assert_eq!(upd.ttl_secs, Some(3600));
    assert_eq!(upd.enabled, Some(false));
    assert_eq!(upd.tags, Some(vec!["ops".to_string(), "nightly".to_string()]));
}

#[test]
fn tags_survive_the_edit_form() {
    let tags = vec!["ops".to_string(), "nightly run".to_string(), "p1".to_string()];
    assert_eq!(text_to_tags(&tags_to_text(&tags)), tags);
    assert_eq!(text_to_tags(&tags_to_text(&Vec::new())), Vec::<String>::new());
}

#[test]
fn repositories_survive_the_edit_form() {
    let repos = vec![
        Repository { repository: "https://github.com/org/a".to_string(), branch: None },
        Repository { repository: "org/b".to_string(), branch: Some("dev".to_string()) },
    ];
    assert_eq!(text_to_repos(&repos_to_text(&repos)), repos);
}

#[test]
fn routine_tiles_count_enabled_due_and_unregistered() {
    let mut lost = routine("c", "C", "ghost", "@daily", &["m"], true);
    lost.agent_registered = false;
    let rs = vec![
        routine("a", "A", "codex", "@daily", &["m"], true),
        routine("b", "B", "codex", "@daily", &["m"], false),
        lost,
    ];
    let t: i64 = 5_000;
    let s = routine_stats_given(&rs, &[Some(t + 100), None, Some(t + 7_200)], t, 3_600);
    assert_eq!((s.total, s.enabled, s.disabled, s.due_soon, s.unregistered), (3, 2, 1, 1, 1));
    let live = routine_stats(&rs[..1], now(), window());
    assert_eq!((live.total, live.enabled, live.disabled, live.unregistered), (1, 1, 0, 0));
    assert_eq!(RoutineStatusFacet::Dormant.toggled(RoutineStatusFacet::Dormant), RoutineStatusFacet::All);
    assert_eq!(RoutineStatusFacet::All.toggled(RoutineStatusFacet::DueSoon), RoutineStatusFacet::DueSoon);
}

#[test]
fn query_searches_the_prompt() {
    let mut r = routine("r1", "Nightly", "codex", "0 0 * * *", &["m"], true);
    r.prompt = "Deploy the app".to_string();
    let f = RoutineFilter { query: "deploy".into(), ..Default::default() };
    assert!(f.matches(&r, now(), window()));
    let miss = RoutineFilter { query: "rollback".into(), ..Default::default() };
    assert!(!miss.matches(&r, now(), window()));
}

#[test]
fn routine_header_checkbox_and_machine_options() {
    let rs = vec![routine("a", "A", "codex", "@daily", &["m2"], true), routine("b", "B", "codex", "@daily", &[], true)];
    let s = RState::default().reduce(RAction::Loaded(rs.clone()));
    let visible = vec!["a".to_string(), "b".to_string()];
    let action = s.select_all_toggle(visible.clone());
    let s = s.reduce(action);
    assert_eq!(s.selected, visible);
    assert!(matches!(s.select_all_toggle(visible), RAction::ClearSelection));
    assert_eq!(routine_machine_options(&rs, &Some("m1".to_string())), vec!["m1".to_string(), "m2".to_string()]);
    assert_eq!(routine_machine_options(&rs, &None), vec!["m2".to_string()]);
}

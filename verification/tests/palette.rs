use moadim_ui::palette::{
    badge_for, build_commands, clamp_selection, fuzzy_score, last_index, next_index, prev_index,
    rank, route_for, schedule_label, score_walk, CmdKind, Command, RouteKind,
};
use moadim_ui::routines::Routine;

fn routine(id: &str, title: &str, agent: &str, schedule: &str, human: Option<&str>) -> Routine {
    Routine {
        id: id.into(),
        schedule: schedule.into(),
        title: title.into(),
        agent: agent.into(),
        prompt: String::new(),
        repositories: vec![],
        machines: vec![],
        enabled: true,
        source: String::new(),
        created_at: 0,
        updated_at: 0,
        last_manual_trigger_at: None,
        last_scheduled_trigger_at: None,
        snoozed_until: None,
        skip_runs: None,
        ttl_secs: None,
        tags: vec![],
        agent_registered: false,
        file_path: String::new(),
        schedule_description: human.map(Into::into),
        flag_count: 0,
    }
}

fn cmd(kind: CmdKind, title: &str, keywords: &str) -> Command {
    Command {
        kind,
        title: title.into(),
        subtitle: String::new(),
        keywords: keywords.into(),
    }
}

#[test]
fn empty_query_matches_with_neutral_score() {
    assert_eq!(fuzzy_score("anything", ""), Some(0));
    assert_eq!(fuzzy_score("anything", "   "), Some(0));
}

#[test]
fn non_subsequence_does_not_match() {
    assert_eq!(fuzzy_score("abc", "xyz"), None);
    assert_eq!(fuzzy_score("abc", "cab"), None); // out of order
}

#[test]
fn start_of_string_outranks_later_hit() {
    let lead = fuzzy_score("overview", "o").expect("matches");
    let mid = fuzzy_score("retro", "o").expect("matches");
    assert!(lead > mid, "leading hit {lead} should beat mid hit {mid}");
}

#[test]
fn word_boundary_hit_is_rewarded() {
    let boundary = fuzzy_score("nightly jobs", "j").expect("matches");
    let interior = fuzzy_score("major", "j").expect("matches");
    assert!(
        boundary > interior,
        "boundary {boundary} > interior {interior}"
    );
}

#[test]
fn consecutive_run_beats_scattered() {
    let consecutive = fuzzy_score("zzabczz", "abc").expect("matches");
    let scattered = fuzzy_score("axbxc", "abc").expect("matches");
    assert!(
        consecutive > scattered,
        "consecutive {consecutive} > scattered {scattered}"
    );
}

#[test]
fn longer_text_is_penalized() {
    let short = fuzzy_score("ab", "a").expect("matches");
    let long = fuzzy_score(&"a".repeat(40), "a").expect("matches");
    assert!(short > long, "short {short} > long {long}");
}

#[test]
fn case_is_ignored() {
    assert!(fuzzy_score("Overview", "OVERVIEW").is_some());
}

#[test]
fn fuzzy_score_exact_values() {
    // "o" at the start of "overview": 1 + 10 start bonus, 8 chars → no length penalty.
    assert_eq!(fuzzy_score("overview", "o"), Some(11));
    // "abc" in "zzabczz": 1 + (1 + 8) + (1 + 8) = 19.
    assert_eq!(fuzzy_score("zzabczz", "abc"), Some(19));
    // 40 chars: penalty 40 / 16 = 2.
    assert_eq!(fuzzy_score(&"a".repeat(40), "a"), Some(9));
    // word boundary after a space: 1 + 6.
    assert_eq!(fuzzy_score("nightly jobs", "j"), Some(7));
}

#[test]
fn empty_query_keeps_natural_order() {
    let commands = vec![
        cmd(CmdKind::NavOverview, "Overview", ""),
        cmd(CmdKind::Routine, "backup", ""),
    ];
    assert_eq!(rank(&commands, ""), vec![0, 1]);
}

#[test]
fn title_match_outranks_keyword_only_match() {
    let commands = vec![
        cmd(CmdKind::Routine, "nightly", "backup database"),
        cmd(CmdKind::Routine, "backup", "misc"),
    ];
    let order = rank(&commands, "backup");
    assert_eq!(order.first(), Some(&1), "title hit should rank first");
    assert_eq!(order.len(), 2);
}

#[test]
fn keyword_only_match_still_surfaces() {
    let commands = vec![cmd(CmdKind::Routine, "alpha", "zeta")];
    assert_eq!(rank(&commands, "zeta"), vec![0]);
}

#[test]
fn title_match_with_unmatched_keywords() {
    let commands = vec![cmd(CmdKind::Routine, "deploy", "xxxxx")];
    assert_eq!(rank(&commands, "deploy"), vec![0]);
}

#[test]
fn non_matching_commands_are_dropped() {
    let commands = vec![
        cmd(CmdKind::Routine, "alpha", "one"),
        cmd(CmdKind::Routine, "beta", "two"),
    ];
    assert!(rank(&commands, "zzz").is_empty());
}

#[test]
fn rank_is_a_stable_sort_by_score() {
    // Equal scores keep input order; a better score moves ahead.
    let commands = vec![
        cmd(CmdKind::Routine, "xa", ""),
        cmd(CmdKind::Routine, "ya", ""),
        cmd(CmdKind::Routine, "ab", ""),
    ];
    assert_eq!(rank(&commands, "a"), vec![2, 0, 1]);
}

#[test]
fn build_lists_pages_then_routines() {
    let routines = vec![routine("r1", "Nightly Audit", "codex", "0 0 * * *", None)];
    let commands = build_commands(&routines);
    assert_eq!(commands.len(), 7); // 3 nav + 3 action + 1 routine
    assert_eq!(commands[0].kind, CmdKind::NavOverview);
    assert_eq!(commands[1].kind, CmdKind::NavRoutines);
    assert_eq!(commands[2].kind, CmdKind::NavHeatmap);
    assert_eq!(commands[3].kind, CmdKind::ActionRefresh);
    assert_eq!(commands[4].kind, CmdKind::ActionStop);
    assert_eq!(commands[5].kind, CmdKind::ActionToggleTheme);
    assert!(commands[5].keywords.contains("theme"));
    assert_eq!(commands[6].kind, CmdKind::Routine);
    assert_eq!(commands[6].title, "Nightly Audit");
    assert_eq!(commands[6].subtitle, "0 0 * * *"); // falls back to raw expr
    assert!(commands[6].keywords.contains("codex"));
    assert_eq!(commands[6].keywords, "r1 codex 0 0 * * *  routine");
}

#[test]
fn routine_subtitle_lists_status_tags() {
    let mut r = routine("r", "T", "a", "0 0 * * *", Some("At midnight"));
    assert_eq!(build_commands(&[r.clone()])[6].subtitle, "At midnight");
    r.agent_registered = true;
    assert_eq!(build_commands(&[r.clone()])[6].subtitle, "At midnight");
    r.enabled = false;
    r.flag_count = 2;
    assert_eq!(build_commands(&[r.clone()])[6].subtitle, "At midnight \u{2014} DISABLED, FLAGS");
    r.enabled = true;
    r.skip_runs = Some(1);
    assert_eq!(build_commands(&[r])[6].subtitle, "At midnight \u{2014} SNOOZED, FLAGS");
}

#[test]
fn schedule_label_prefers_human_then_raw_then_dash() {
    assert_eq!(
        schedule_label(&Some("At noon".into()), "0 12 * * *"),
        "At noon"
    );
    assert_eq!(
        schedule_label(&Some(String::new()), "0 12 * * *"),
        "0 12 * * *"
    );
    assert_eq!(schedule_label(&None, "0 12 * * *"), "0 12 * * *");
    assert_eq!(schedule_label(&None, "   "), "—");
}

#[test]
fn route_for_maps_every_kind() {
    assert_eq!(route_for(CmdKind::NavOverview), Some(RouteKind::Home));
    assert_eq!(route_for(CmdKind::NavRoutines), Some(RouteKind::Routines));
    assert_eq!(route_for(CmdKind::NavHeatmap), Some(RouteKind::Heatmap));
    assert_eq!(route_for(CmdKind::Routine), Some(RouteKind::Routines));
    assert_eq!(route_for(CmdKind::ActionRefresh), None);
    assert_eq!(route_for(CmdKind::ActionStop), None);
    assert_eq!(route_for(CmdKind::ActionToggleTheme), None);
}

#[test]
fn badge_for_maps_every_kind() {
    assert_eq!(badge_for(CmdKind::NavOverview), "GO");
    assert_eq!(badge_for(CmdKind::NavRoutines), "GO");
    assert_eq!(badge_for(CmdKind::NavHeatmap), "GO");
    assert_eq!(badge_for(CmdKind::Routine), "ROUTINE");
    assert_eq!(badge_for(CmdKind::ActionRefresh), "ACTION");
    assert_eq!(badge_for(CmdKind::ActionStop), "ACTION");
    assert_eq!(badge_for(CmdKind::ActionToggleTheme), "ACTION");
}

#[test]
fn clamp_selection_handles_empty_and_overflow() {
    assert_eq!(clamp_selection(5, 0), 0);
    assert_eq!(clamp_selection(2, 4), 2);
    assert_eq!(clamp_selection(9, 4), 3);
}

#[test]
fn next_index_advances_without_wrapping() {
    assert_eq!(next_index(0, 0), 0);
    assert_eq!(next_index(0, 3), 1);
    assert_eq!(next_index(2, 3), 2);
}

#[test]
fn prev_index_saturates_at_zero() {
    assert_eq!(prev_index(0), 0);
    assert_eq!(prev_index(3), 2);
}

#[test]
fn last_index_is_final_row_or_zero() {
    assert_eq!(last_index(0), 0);
    assert_eq!(last_index(5), 4);
}

#[test]
fn score_walk_sums_the_greedy_hits() {
    let hay: Vec<char> = "abc".chars().collect();
    let ab: Vec<char> = "ab".chars().collect();
    let ac: Vec<char> = "ac".chars().collect();
    let ca: Vec<char> = "ca".chars().collect();
    assert_eq!(score_walk(&hay, &ab), Some(20));
    assert_eq!(score_walk(&hay, &ac), Some(12));
    assert_eq!(score_walk(&hay, &ca), None);
    assert_eq!(score_walk(&hay, &[]), Some(0));
}

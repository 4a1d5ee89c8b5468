use moadim_ui::reliability::{
    bucket_finished_runs, compute_reliability, compute_streak, count_flips, fleet_summary, streak_class, streak_label,
    FleetReliability, FleetRunSummary, RoutineReliability, RunStatus, Streak, SAMPLE_LEN,
};

fn run(routine_id: &str, title: &str, started_at: u64, status: RunStatus) -> FleetRunSummary {
    FleetRunSummary {
        routine_id: routine_id.to_string(),
        routine_title: title.to_string(),
        workbench: format!("{routine_id}-{started_at}"),
        started_at,
        finished_at: Some(started_at + 1),
        status,
        exit_code: None,
    }
}

#[test]
fn compute_reliability_empty_input_is_empty() {
    assert_eq!(compute_reliability(&[]), Vec::new());
}

#[test]
fn compute_reliability_excludes_running_and_unknown_runs() {
    let runs = vec![
        run("a", "Alpha", 3, RunStatus::Running),
        run("a", "Alpha", 2, RunStatus::Success),
        run("a", "Alpha", 1, RunStatus::Unknown),
    ];
    let items = compute_reliability(&runs);
    assert_eq!(items.len(), 1);
    assert_eq!(items[0].sample_size, 1);
    assert_eq!(items[0].successes, 1);
}

#[test]
fn compute_reliability_omits_routines_with_no_finished_run() {
    let runs = vec![run("a", "Alpha", 1, RunStatus::Running)];
    assert!(compute_reliability(&runs).is_empty());
}

#[test]
fn compute_reliability_caps_sample_at_sample_len() {
    let runs: Vec<FleetRunSummary> = (0..SAMPLE_LEN + 10)
        .map(|i| run("a", "Alpha", i as u64, RunStatus::Success))
        .collect();
    let items = compute_reliability(&runs);
    assert_eq!(items[0].sample_size, SAMPLE_LEN);
}

#[test]
fn compute_reliability_keeps_newest_runs_when_capping() {
    let mut runs: Vec<FleetRunSummary> = (0..SAMPLE_LEN + 5)
        .map(|i| {
            run(
                "a",
                "Alpha",
                (SAMPLE_LEN + 5 - i) as u64,
                RunStatus::Success,
            )
        })
        .collect();
    runs.push(run("a", "Alpha", 0, RunStatus::Failed));
    let items = compute_reliability(&runs);
    assert_eq!(items[0].sample_size, SAMPLE_LEN);
    assert_eq!(items[0].successes, SAMPLE_LEN);
    assert_eq!(items[0].streak, Streak::Success(SAMPLE_LEN));
}

#[test]
fn streak_all_success() {
    let runs = vec![
        run("a", "Alpha", 3, RunStatus::Success),
        run("a", "Alpha", 2, RunStatus::Success),
        run("a", "Alpha", 1, RunStatus::Success),
    ];
    assert_eq!(compute_reliability(&runs)[0].streak, Streak::Success(3));
}

#[test]
fn streak_stops_at_first_status_change_newest_first() {
    let runs = vec![
        run("a", "Alpha", 4, RunStatus::Failed),
        run("a", "Alpha", 3, RunStatus::Failed),
        run("a", "Alpha", 2, RunStatus::Success),
        run("a", "Alpha", 1, RunStatus::Success),
    ];
    assert_eq!(compute_reliability(&runs)[0].streak, Streak::Failure(2));
}

#[test]
fn streak_none_when_sample_empty() {
    assert_eq!(compute_streak(&[]), Streak::NoRuns);
}

#[test]
fn count_flips_counts_adjacent_status_changes() {
    assert_eq!(
        count_flips(&[
            RunStatus::Success,
            RunStatus::Failed,
            RunStatus::Failed,
            RunStatus::Success,
        ]),
        2
    );
}

#[test]
fn count_flips_zero_for_uniform_sample() {
    assert_eq!(count_flips(&[RunStatus::Success, RunStatus::Success]), 0);
}

#[test]
fn is_flaky_false_below_minimum_sample() {
    let runs = vec![
        run("a", "Alpha", 4, RunStatus::Success),
        run("a", "Alpha", 3, RunStatus::Failed),
        run("a", "Alpha", 2, RunStatus::Success),
        run("a", "Alpha", 1, RunStatus::Failed),
    ];
    assert!(!compute_reliability(&runs)[0].is_flaky());
}

#[test]
fn is_flaky_true_at_or_above_ratio_with_enough_sample() {
    let runs = vec![
        run("a", "Alpha", 6, RunStatus::Success),
        run("a", "Alpha", 5, RunStatus::Failed),
        run("a", "Alpha", 4, RunStatus::Success),
        run("a", "Alpha", 3, RunStatus::Failed),
        run("a", "Alpha", 2, RunStatus::Success),
        run("a", "Alpha", 1, RunStatus::Failed),
    ];
    assert!(compute_reliability(&runs)[0].is_flaky());
}

#[test]
fn is_flaky_false_for_steady_run_with_enough_sample() {
    let runs: Vec<FleetRunSummary> = (0..6)
        .map(|i| run("a", "Alpha", i as u64, RunStatus::Success))
        .collect();
    assert!(!compute_reliability(&runs)[0].is_flaky());
}

#[test]
fn is_flaky_threshold_is_two_fifths_of_pairs() {
    let item = |sample_size: usize, flips: usize| RoutineReliability {
        routine_id: "a".into(),
        routine_title: "Alpha".into(),
        sample_size,
        successes: 0,
        streak: Streak::NoRuns,
        flips,
    };
    // 6 runs → 5 pairs; 2 flips = 40% → flaky, 1 flip = 20% → not.
    assert!(item(6, 2).is_flaky());
    assert!(!item(6, 1).is_flaky());
    assert!(!item(4, 3).is_flaky());
}

#[test]
fn ranks_active_failure_streak_before_low_success_rate() {
    let runs = vec![
        run("alpha", "Alpha", 2, RunStatus::Failed),
        run("alpha", "Alpha", 1, RunStatus::Success),
        run("beta", "Beta", 4, RunStatus::Success),
        run("beta", "Beta", 3, RunStatus::Failed),
        run("beta", "Beta", 2, RunStatus::Failed),
        run("beta", "Beta", 1, RunStatus::Success),
    ];
    let items = compute_reliability(&runs);
    assert_eq!(items[0].routine_id, "alpha");
    assert_eq!(items[1].routine_id, "beta");
}

#[test]
fn ranks_longer_failure_streak_first() {
    let runs = vec![
        run("short", "Short", 1, RunStatus::Failed),
        run("long", "Long", 2, RunStatus::Failed),
        run("long", "Long", 1, RunStatus::Failed),
    ];
    let items = compute_reliability(&runs);
    assert_eq!(items[0].routine_id, "long");
    assert_eq!(items[1].routine_id, "short");
}

#[test]
fn ranks_lower_success_rate_first_when_no_active_failure_streak() {
    let runs = vec![
        run("worse", "Worse", 4, RunStatus::Success),
        run("worse", "Worse", 3, RunStatus::Failed),
        run("worse", "Worse", 2, RunStatus::Success),
        run("better", "Better", 2, RunStatus::Success),
        run("better", "Better", 1, RunStatus::Success),
    ];
    let items = compute_reliability(&runs);
    assert_eq!(items[0].routine_id, "worse");
    assert_eq!(items[1].routine_id, "better");
}

#[test]
fn ranks_ties_by_title() {
    let runs = vec![
        run("z", "Zeta", 1, RunStatus::Success),
        run("a", "Alpha", 1, RunStatus::Success),
    ];
    let items = compute_reliability(&runs);
    assert_eq!(items[0].routine_id, "a");
    assert_eq!(items[1].routine_id, "z");
}

#[test]
fn fleet_summary_of_empty_is_zeroed() {
    assert_eq!(fleet_summary(&[]), FleetReliability::default());
}

#[test]
fn fleet_summary_aggregates_across_routines() {
    let runs = vec![
        run("a", "Alpha", 2, RunStatus::Failed),
        run("a", "Alpha", 1, RunStatus::Success),
        run("b", "Beta", 1, RunStatus::Success),
    ];
    let items = compute_reliability(&runs);
    let summary = fleet_summary(&items);
    assert_eq!(summary.sample_size, 3);
    assert_eq!(summary.successes, 2);
    assert_eq!(summary.failing_count, 1);
}

#[test]
fn streak_class_covers_every_variant() {
    assert_eq!(streak_class(Streak::Success(1)), "run-status success");
    assert_eq!(streak_class(Streak::Failure(1)), "run-status failed");
    assert_eq!(streak_class(Streak::NoRuns), "run-status unknown");
}

#[test]
fn streak_label_covers_every_variant() {
    assert_eq!(streak_label(Streak::Success(3)), "3 OK");
    assert_eq!(streak_label(Streak::Failure(2)), "2 FAILING");
    assert_eq!(streak_label(Streak::NoRuns), "\u{2014}");
}

#[test]
fn flips_count_the_same_either_way() {
    let s = vec![RunStatus::Success, RunStatus::Failed, RunStatus::Failed, RunStatus::Success, RunStatus::Failed];
    let mut r = s.clone();
    r.reverse();
    assert_eq!(count_flips(&s), 3);
    assert_eq!(count_flips(&r), count_flips(&s));
}

#[test]
fn fleet_summary_adds_up_over_joined_lists() {
    let a = compute_reliability(&[run("a", "Alpha", 2, RunStatus::Failed), run("a", "Alpha", 1, RunStatus::Success)]);
    let b = compute_reliability(&[run("b", "Beta", 1, RunStatus::Success)]);
    let mut both: Vec<RoutineReliability> = a.clone();
    both.extend(b.clone());
    let (sa, sb, sab) = (fleet_summary(&a), fleet_summary(&b), fleet_summary(&both));
    assert_eq!(sab.sample_size, sa.sample_size + sb.sample_size);
    assert_eq!(sab.successes, sa.successes + sb.successes);
    assert_eq!(sab.failing_count, sa.failing_count + sb.failing_count);
    assert_eq!(sab.flaky_count, sa.flaky_count + sb.flaky_count);
    assert_eq!(fleet_summary(&[]), FleetReliability::default());
}

#[test]
fn buckets_keep_each_routines_first_finished_runs() {
    let runs = vec![
        run("a", "Alpha new", 5, RunStatus::Success),
        run("b", "Beta", 4, RunStatus::Running),
        run("a", "Alpha old", 3, RunStatus::Failed),
        run("b", "Beta", 2, RunStatus::Failed),
    ];
    let buckets = bucket_finished_runs(&runs);
    assert_eq!(buckets.len(), 2);
    assert_eq!((buckets[0].id.as_str(), buckets[0].title.as_str()), ("a", "Alpha new"));
    assert_eq!(buckets[0].statuses, vec![RunStatus::Success, RunStatus::Failed]);
    assert_eq!(buckets[1].id, "b");
    assert_eq!(buckets[1].statuses, vec![RunStatus::Failed]);
}

use moadim_ui::day_timeline::{day_fires, fire_times, hour_buckets, scan_day, scan_step, MAX_FIRES};

fn day() -> (i32, u32, u32) {
    (2026, 6, 22)
}

#[test]
fn multiple_fires_within_a_day_are_returned_in_order() {
    let times = fire_times("0 9,12,18 * * *", day());
    assert_eq!(times, vec![(9, 0, 0), (12, 0, 0), (18, 0, 0)]);
}

#[test]
fn midnight_fire_is_attributed_to_the_target_day_not_dropped() {
    let times = fire_times("0 0 * * *", day());
    assert_eq!(times, vec![(0, 0, 0)]);
}

#[test]
fn fires_on_adjacent_days_are_excluded() {
    let times = fire_times("0 12 * * *", day());
    assert_eq!(times, vec![(12, 0, 0)]);
}

#[test]
fn unparseable_schedule_returns_empty() {
    assert!(fire_times("not a cron", day()).is_empty());
    assert!(fire_times("", day()).is_empty());
}

#[test]
fn pathological_schedule_respects_the_max_fires_cap() {
    let times = fire_times("* * * * * *", day());
    assert_eq!(times.len(), MAX_FIRES);
}

#[test]
fn invalid_day_has_no_fires() {
    assert!(fire_times("0 12 * * *", (2026, 2, 30)).is_empty());
}

#[test]
fn day_fires_skips_earlier_days_and_stops_at_later_ones() {
    let stamps = [
        ((2026, 6, 21), (23, 0, 0)),
        ((2026, 6, 22), (1, 0, 0)),
        ((2026, 6, 22), (2, 30, 0)),
        ((2026, 6, 23), (0, 0, 0)),
        ((2026, 6, 22), (5, 0, 0)),
    ];
    assert_eq!(day_fires(&stamps, day()), vec![(1, 0, 0), (2, 30, 0)]);
    assert!(day_fires(&stamps[3..], day()).is_empty());
}

/// A stand-in lookup: a fire every second after the cursor; instants 0..9 fall on
/// 2026-06-22 at 00:00:0t, later ones on the next day.
fn every_second(c: i64) -> Option<(i64, ((i32, u32, u32), (u32, u32, u32)))> {
    let t = c + 1;
    let date = if t < 10 { (2026, 6, 22) } else { (2026, 6, 23) };
    Some((t, (date, (0, 0, (t % 60) as u32))))
}

#[test]
fn scan_starts_from_the_given_cursor_and_follows_each_fire() {
    let day = (2026, 6, 22);
    let from_before_midnight = scan_day(every_second, -1, day);
    assert_eq!(from_before_midnight.len(), 10);
    assert_eq!(from_before_midnight[0], (0, 0, 0));
    let from_midnight = scan_day(every_second, 0, day);
    assert_eq!(from_midnight.len(), 9);
    assert_eq!(from_midnight[0], (0, 0, 1));
    assert!(scan_day(|_c: i64| None, -1, day).is_empty());
}

#[test]
fn scan_step_keeps_the_stamp_and_stops_past_the_day_or_at_the_cap() {
    let day = (2026, 6, 22);
    let on_day = (day, (9, 0, 0));
    let next_day = ((2026, 6, 23), (0, 0, 0));
    assert_eq!(scan_step(Some((100, on_day)), day, 0), (Some(on_day), Some(100)));
    assert_eq!(scan_step(Some((100, next_day)), day, 0), (Some(next_day), None));
    assert_eq!(scan_step(Some((100, on_day)), day, MAX_FIRES - 1), (Some(on_day), None));
    assert_eq!(scan_step(None, day, 0), (None, None));
}

#[test]
fn hour_rows_order_by_time_keeping_ties_in_input_order() {
    let times = vec![(9, 30, 0), (9, 5, 0), (13, 0, 0), (9, 5, 0), (25, 0, 0)];
    let rows = hour_buckets(&times);
    assert_eq!(rows.len(), 24);
    assert_eq!(rows[9], vec![1, 3, 0]);
    assert_eq!(rows[13], vec![2]);
    assert_eq!(rows.iter().map(|r| r.len()).sum::<usize>(), 4);
}

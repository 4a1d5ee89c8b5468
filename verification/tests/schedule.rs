use moadim_ui::schedule::{describe_cron_live, fires_within, next_fire_after, normalize, parse_cron, reltime};

#[test]
fn parse_cron_rejects_empty_and_blank() {
    assert!(parse_cron("").is_none());
    assert!(parse_cron("   ").is_none());
}

#[test]
fn parse_cron_accepts_5_field() {
    assert!(parse_cron("0 * * * *").is_some());
}

#[test]
fn parse_cron_accepts_6_field_with_seconds() {
    let cron = parse_cron("30 0 * * * *").expect("valid 6-field expression");
    assert!(cron.describe().contains("second"));
}

#[test]
fn parse_cron_normalizes_7_field_by_dropping_seconds_and_year() {
    let cron = parse_cron("30 0 12 * * * 2026").expect("normalized to a valid 5-field schedule");
    assert_eq!(cron.describe(), "At 12:00.");
    assert_eq!(cron.expression(), "0 12 * * *");
}

#[test]
fn parse_cron_passes_through_at_keywords() {
    assert!(parse_cron("@daily").is_some());
}

#[test]
fn parse_cron_rejects_invalid_expression() {
    assert!(parse_cron("not a cron").is_none());
}

#[test]
fn describe_cron_live_reports_placeholder_for_blank_input() {
    let (valid, description) = describe_cron_live("   ");
    assert!(!valid);
    assert_eq!(description, "\u{2014} enter a cron expression \u{2014}");
}

#[test]
fn describe_cron_live_reports_invalid_for_bad_expression() {
    let (valid, description) = describe_cron_live("not a cron");
    assert!(!valid);
    assert_eq!(description, "Invalid cron expression");
}

#[test]
fn describe_cron_live_describes_valid_expression() {
    let (valid, description) = describe_cron_live("0 * * * *");
    assert!(valid);
    assert!(!description.is_empty());
}

#[test]
fn next_fire_is_strictly_after_now() {
    let now = 1_750_000_000;
    let next = next_fire_after("* * * * *", now).expect("every minute fires");
    assert!(next > now && next - now <= 60);
    assert_eq!(next_fire_after("not a cron", now), None);
    assert!(fires_within("* * * * *", now, 60));
    assert!(!fires_within("not a cron", now, 60));
}

#[test]
fn reltime_buckets() {
    assert_eq!(reltime(0, 100), "\u{2014}");
    assert_eq!(reltime(100, 150), "just now");
    assert_eq!(reltime(100, 100 + 120), "2m ago");
    assert_eq!(reltime(100, 100 + 7_200), "2h ago");
    assert_eq!(reltime(100, 100 + 3 * 86_400), "3d ago");
    assert_eq!(reltime(500, 100), "just now");
}

#[test]
fn normalizing_twice_changes_nothing() {
    for expr in ["  0 0 9 * * 1-5 *  ", "*/5 * * * *", "@daily", "0 30 2 * * *", "  "] {
        let once: String = normalize(expr).into_iter().collect();
        let twice: String = normalize(&once).into_iter().collect();
        assert_eq!(once, twice, "{expr:?}");
    }
    let once: String = normalize("0 0 9 * * 1-5 *").into_iter().collect();
    assert_eq!(once, "0 9 * * 1-5");
}

use projectlog::settings::{next_recent_usage_timestamp, RecentUse, UiPreferences};
use projectlog::text::clean_input;
use projectlog::timesheet_controller::{parse_timesheet_options, preview_window_layout};
use projectlog::timesheet_model::{TimesheetFormat, TimesheetOptions, TimesheetRange};

#[test]
fn clean_input_collapses_whitespace_and_newlines() {
    let cleaned = clean_input("  Alpha\tBeta\r\nGamma  ");

    assert_eq!(cleaned, "Alpha Beta Gamma");
}

#[test]
fn clean_input_returns_empty_for_only_whitespace() {
    let actual = clean_input(" \t\r\n  ");

    assert_eq!(actual, "");
}

#[test]
fn clean_input_keeps_single_words_and_unicode_spaces() {
    assert_eq!(clean_input("Alpha"), "Alpha");
    assert_eq!(clean_input("a\u{3000}b\u{a0}\u{a0}c"), "a b c");
}

#[test]
fn parse_timesheet_options_accepts_full_all() {
    let actual = parse_timesheet_options("all", "full").unwrap();

    assert_eq!(
        actual,
        TimesheetOptions {
            range: TimesheetRange::All,
            format: TimesheetFormat::Full,
            rounding_enabled: false,
        }
    );
}

#[test]
fn parse_timesheet_options_accepts_recent_today() {
    let actual = parse_timesheet_options("today", "recent").unwrap();

    assert_eq!(
        actual,
        TimesheetOptions {
            range: TimesheetRange::Today,
            format: TimesheetFormat::Recent,
            rounding_enabled: false,
        }
    );
}

#[test]
fn parse_timesheet_options_rejects_unknown_range() {
    let err = parse_timesheet_options("month", "full").unwrap_err();

    assert_eq!(err, "Unknown timesheet range.");
}

#[test]
fn parse_timesheet_options_rejects_unknown_format() {
    let err = parse_timesheet_options("all", "compact").unwrap_err();

    assert_eq!(err, "Unknown timesheet format.");
}

#[test]
fn parse_timesheet_options_rejects_recent_for_non_today_ranges() {
    let err = parse_timesheet_options("week", "recent").unwrap_err();

    assert_eq!(err, "Yesterday + today export only supports the two-day overview.");
}

#[test]
fn parse_timesheet_options_reports_the_range_before_the_format() {
    assert_eq!(parse_timesheet_options("month", "compact").unwrap_err(), "Unknown timesheet range.");
    assert_eq!(
        parse_timesheet_options("week", "full").unwrap(),
        TimesheetOptions::full(TimesheetRange::Week)
    );
    assert_eq!(parse_timesheet_options("today", "recent").unwrap(), TimesheetOptions::recent());
}

#[test]
fn preview_window_layout_follows_the_format() {
    let (title, width, height) = preview_window_layout(TimesheetFormat::Recent);
    assert_eq!(title, "ProjectLog Timesheet: Yesterday + Today");
    assert_eq!((width, height), (860, 600));
    let (title, width, height) = preview_window_layout(TimesheetFormat::Full);
    assert_eq!(title, "ProjectLog Timesheet: Full");
    assert_eq!((width, height), (1120, 760));
}

#[test]
fn next_recent_usage_timestamp_is_strictly_greater_than_existing_max() {
    let mut settings = UiPreferences::default();
    settings.project_recent_usage = vec![
        RecentUse { project: "Alpha".to_string(), used_at: 100 },
        RecentUse { project: "Beta".to_string(), used_at: 250 },
    ];

    let actual = next_recent_usage_timestamp(&settings);

    assert!(actual > 250);
}

#[test]
fn next_recent_usage_timestamp_advances_when_clock_value_is_not_newer() {
    let mut settings = UiPreferences::default();
    settings.project_recent_usage =
        vec![RecentUse { project: "Alpha".to_string(), used_at: u64::MAX - 1 }];

    let actual = next_recent_usage_timestamp(&settings);

    assert_eq!(actual, u64::MAX);
}

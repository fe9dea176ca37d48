use chrono::{Datelike, Local, TimeDelta};
use projectlog::export_service::{current_week_name, fallback_file_name, generate};
use projectlog::settings::{next_recent_usage_timestamp, UiPreferences};
use projectlog::timesheet_model::{TimesheetOptions, TimesheetRange};
use projectlog::timesheet_service::preview;

fn build_relative_log_fixture() -> String {
    let today = Local::now().naive_local().date();
    let yesterday = today - TimeDelta::days(1);
    let monday_this_week = today - TimeDelta::days(today.weekday().num_days_from_monday() as i64);
    let previous_week_monday = monday_this_week - TimeDelta::days(7);

    let lines = vec![
        format!("{} 09:00:00\tAlpha\tLegacy planning", previous_week_monday.format("%Y-%m-%d")),
        format!("{} 11:00:00\tBeta", previous_week_monday.format("%Y-%m-%d")),
        format!("{} 09:00:00\tBeta\tBuild", monday_this_week.format("%Y-%m-%d")),
        format!("{} 12:00:00\tGamma", monday_this_week.format("%Y-%m-%d")),
        format!("{} 08:30:00\tGamma\tReview", yesterday.format("%Y-%m-%d")),
        format!("{} 10:00:00\tAlpha\tSupport", yesterday.format("%Y-%m-%d")),
        format!("{} 09:15:00\tAlpha\tDelivery", today.format("%Y-%m-%d")),
        format!("{} 12:15:00\t", today.format("%Y-%m-%d")),
    ];
    lines.join("\n") + "\n"
}

#[test]
fn preview_recent_uses_relative_fixture_for_yesterday_and_today() {
    let result = preview(&build_relative_log_fixture(), TimesheetOptions::recent()).unwrap();

    assert_eq!(result.title, "Yesterday + today");
    assert_eq!(result.sheets.len(), 1);
    assert_eq!(result.sheets[0].columns.len(), 2);
    assert!(result.sheets[0].rows.iter().any(|row| row.label == "Alpha"));
    assert!(result.sheets[0].rows.iter().any(|row| row.label == "Total"));
    assert!(result.sheets[0].rows.iter().any(|row| row.total >= 3 * 3600));
    assert_eq!(result.sheets[0].rows.last().unwrap().label, "Total");
    assert_eq!(result.sheets[0].rows.last().unwrap().values.len(), 2);
    assert!(result.generated_at_epoch_ms > 0);
}

#[test]
fn preview_full_relative_fixture_spans_multiple_weeks_and_comments() {
    let result =
        preview(&build_relative_log_fixture(), TimesheetOptions::full(TimesheetRange::All)).unwrap();

    assert_eq!(result.title, "Full timesheet");
    assert!(result.sheets.len() >= 2);
    assert!(result.sheets.iter().all(|sheet| sheet.name.contains('-')));
    assert!(result
        .sheets
        .iter()
        .flat_map(|sheet| sheet.rows.iter())
        .any(|row| row.label == "  - Legacy planning"));
    assert!(result.sheets.iter().flat_map(|sheet| sheet.rows.iter()).any(|row| row.label == "  - Build"));
    assert!(result
        .sheets
        .iter()
        .all(|sheet| sheet.rows.last().map(|row| row.label.as_str()) == Some("Total")));
}

#[test]
fn recent_generation_creates_separate_file() {
    let today = Local::now().naive_local().date();
    let yesterday = today - TimeDelta::days(1);
    let log = format!(
        "{yesterday} 09:00:00\tAlpha\tPrep\n{yesterday} 11:00:00\t\n{today} 10:00:00\tBeta\tBuild\n{today} 13:00:00\t\n"
    );

    let plan = generate(&log, TimesheetOptions::recent()).unwrap();

    assert_eq!(plan.file_name, "timesheet-yesterday-today.xlsx");
    assert_eq!(plan.sheets.len(), 1);
    assert!(plan.sheets[0].active);
}

#[test]
fn current_week_name_follows_the_local_clock() {
    let week = Local::now().iso_week();
    assert_eq!(current_week_name().unwrap(), format!("{}-{}", week.year(), week.week()));
}

#[test]
fn fallback_file_name_carries_the_time() {
    let name = fallback_file_name(TimesheetOptions::full(TimesheetRange::Week)).unwrap();
    assert!(name.starts_with("timesheet-week-"));
    assert!(name.ends_with(".xlsx"));
    assert_eq!(name.len(), "timesheet-week-20260428-101500.xlsx".len());
}

#[test]
fn next_recent_usage_timestamp_reads_the_clock() {
    let before = std::time::SystemTime::now()
        .duration_since(std::time::UNIX_EPOCH)
        .unwrap()
        .as_micros() as u64;
    let actual = next_recent_usage_timestamp(&UiPreferences::default());
    assert!(actual >= before);
}

#[test]
fn week_name_for_names_year_and_week() {
    let d = projectlog::clock::CalendarDay { day: 739_730, iso_year: 2026, iso_week: 18, weekday: 1 };
    assert_eq!(projectlog::export_service::week_name_for(d), "2026-18");
    let early = projectlog::clock::CalendarDay { day: 739_251, iso_year: 2025, iso_week: 1, weekday: 0 };
    assert_eq!(projectlog::export_service::week_name_for(early), "2025-1");
}

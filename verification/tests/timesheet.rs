use chrono::Datelike;
use projectlog::booking::TimesheetDays;
use projectlog::clock::CalendarDay;
use projectlog::export_service::{
    export_file_name_of, export_plan, fallback_file_name_at, save_failure_message, write_hours_cell,
    CellContent, CellStyle,
};
use projectlog::time_log::parse_log;
use projectlog::timesheet_model::{TimesheetFormat, TimesheetOptions, TimesheetPreview, TimesheetRange};
use projectlog::timesheet_service::timesheet_preview;

const HOUR: u128 = 3600;

fn day(year: i32, month: u32, date: u32) -> CalendarDay {
    let d = chrono::NaiveDate::from_ymd_opt(year, month, date).unwrap();
    CalendarDay {
        day: d.num_days_from_ce(),
        iso_year: d.iso_week().year(),
        iso_week: d.iso_week().week(),
        weekday: d.weekday().num_days_from_monday(),
    }
}

fn days_of(year: i32, month: u32, date: u32) -> TimesheetDays {
    let today = day(year, month, date);
    let d = chrono::NaiveDate::from_ymd_opt(year, month, date).unwrap().pred_opt().unwrap();
    TimesheetDays { today, yesterday: day(d.year(), d.month(), d.day()) }
}

fn preview_of(content: &str, options: TimesheetOptions, days: TimesheetDays) -> Result<TimesheetPreview, String> {
    timesheet_preview(content, options, days, "2026-04-28 18:00".to_string(), 1_777_396_800_000)
}

#[test]
fn preview_full_groups_entries_by_week() {
    let log = "2026-04-20 09:00:00\tAlpha\tKickoff\n2026-04-20 11:00:00\tBeta\n2026-04-28 09:00:00\tBeta\tBuild\n2026-04-28 12:00:00\t\n";
    let result =
        preview_of(log, TimesheetOptions::full(TimesheetRange::All), days_of(2026, 4, 28)).unwrap();

    assert_eq!(result.title, "Full timesheet");
    assert_eq!(result.generated_at, "2026-04-28 18:00");
    assert_eq!(result.sheets.len(), 2);
    assert_eq!(result.sheets[0].name, "2026-17");
    assert_eq!(result.sheets[1].name, "2026-18");
    assert_eq!(result.sheets[0].columns, vec!["Mon", "Tue", "Wed", "Thu", "Fri", "Sat", "Sun"]);
    assert_eq!(result.sheets[0].rows[0].label, "Alpha");
    assert_eq!(result.sheets[0].rows[0].values, vec![2 * HOUR, 0, 0, 0, 0, 0, 0]);
    assert_eq!(result.sheets[0].rows[1].label, "  - Kickoff");
    assert!(result.sheets[0].rows[1].is_comment);
    assert_eq!(result.sheets[0].rows[2].label, "Beta");
    assert_eq!(result.sheets[0].rows[2].total, 190 * HOUR);
    assert_eq!(result.sheets[0].rows.last().unwrap().label, "Total");
    assert_eq!(result.sheets[0].rows.last().unwrap().total, 192 * HOUR);
    assert_eq!(result.sheets[1].rows[0].label, "Beta");
    assert_eq!(result.sheets[1].rows[0].values, vec![0, 3 * HOUR, 0, 0, 0, 0, 0]);
    assert_eq!(result.sheets[1].rows[1].label, "  - Build");
    assert_eq!(result.sheets[1].rows.last().unwrap().total, 3 * HOUR);
}

#[test]
fn preview_recent_includes_comment_rows_totals_and_generation_time() {
    let log = "2026-04-25 10:00:00\tBeta\tBuild\n2026-04-25 13:00:00\t\n";
    let result = preview_of(log, TimesheetOptions::recent(), days_of(2026, 4, 25)).unwrap();

    assert_eq!(result.title, "Yesterday + today");
    assert!(!result.generated_at.is_empty());
    assert!(result.generated_at_epoch_ms > 0);
    assert_eq!(result.sheets.len(), 1);
    assert_eq!(result.sheets[0].name, "Yesterday + today");
    assert_eq!(result.sheets[0].columns, vec!["Fri", "Sat"]);
    assert_eq!(result.sheets[0].rows[0].label, "Beta");
    assert_eq!(result.sheets[0].rows[0].total, 3 * HOUR);
    assert_eq!(result.sheets[0].rows[1].label, "  - Build");
    assert!(result.sheets[0].rows[1].is_comment);
    let total = result.sheets[0].rows.last().unwrap();
    assert_eq!(total.label, "Total");
    assert!(total.is_total);
    assert_eq!(total.values, vec![0, 3 * HOUR]);
    assert_eq!(total.total, 3 * HOUR);
}

#[test]
fn preview_recent_keeps_the_entry_running_into_yesterday() {
    let log = "2026-04-20 08:00:00\tOld\n2026-04-23 22:00:00\tLate\n2026-04-24 09:00:00\tAlpha\n2026-04-24 10:00:00\t\n2026-04-25 08:00:00\tAlpha\tSupport\n2026-04-25 08:30:00\t\n";
    let result = preview_of(log, TimesheetOptions::recent(), days_of(2026, 4, 25)).unwrap();
    let rows = &result.sheets[0].rows;

    assert_eq!(rows[0].label, "Alpha");
    assert_eq!(rows[0].values, vec![HOUR, HOUR / 2]);
    assert_eq!(rows[1].label, "  - Support");
    assert_eq!(rows[1].values, vec![0, HOUR / 2]);
    assert_eq!(rows.last().unwrap().values, vec![HOUR, HOUR / 2]);
    assert!(rows.iter().all(|row| row.label != "Old" && row.label != "Late"));
}

#[test]
fn preview_full_today_and_week_ranges_keep_only_their_days() {
    let log = "2026-04-20 09:00:00\tAlpha\n2026-04-20 10:00:00\t\n2026-04-27 09:00:00\tBeta\n2026-04-27 11:00:00\t\n2026-04-28 09:00:00\tGamma\n2026-04-28 09:30:00\t\n";
    let days = days_of(2026, 4, 28);
    let today = preview_of(log, TimesheetOptions::full(TimesheetRange::Today), days).unwrap();
    assert_eq!(today.sheets.len(), 1);
    assert_eq!(today.sheets[0].rows[0].label, "Gamma");
    assert_eq!(today.sheets[0].rows.len(), 2);

    let week = preview_of(log, TimesheetOptions::full(TimesheetRange::Week), days).unwrap();
    assert_eq!(week.sheets.len(), 1);
    assert_eq!(week.sheets[0].name, "2026-18");
    assert_eq!(week.sheets[0].rows.len(), 3);
    assert_eq!(week.sheets[0].rows[2].total, 2 * HOUR + HOUR / 2);
}

#[test]
fn preview_orders_projects_and_comments_by_name() {
    let log = "2026-04-28 09:00:00\tbeta\tz\n2026-04-28 10:00:00\tAlpha\n2026-04-28 11:00:00\tbeta\ta\n2026-04-28 12:00:00\t\n";
    let result = preview_of(log, TimesheetOptions::full(TimesheetRange::All), days_of(2026, 4, 28)).unwrap();
    let labels: Vec<&str> = result.sheets[0].rows.iter().map(|row| row.label.as_str()).collect();
    assert_eq!(labels, vec!["Alpha", "beta", "  - a", "  - z", "Total"]);
    assert_eq!(result.sheets[0].rows[1].total, 2 * HOUR);
}

#[test]
fn empty_log_returns_friendly_error() {
    let err = preview_of("", TimesheetOptions::full(TimesheetRange::All), days_of(2026, 4, 28)).unwrap_err();
    assert_eq!(err, "Your timesheet is empty.");
}

#[test]
fn logs_without_booked_time_report_no_hours() {
    let log = "2026-04-28 09:00:00\t\n2026-04-28 10:00:00\tAlpha\n";
    let full = preview_of(log, TimesheetOptions::full(TimesheetRange::All), days_of(2026, 4, 28)).unwrap_err();
    assert_eq!(full, "No hours were found for the selected range.");
    let recent = preview_of(log, TimesheetOptions::recent(), days_of(2026, 4, 28)).unwrap_err();
    assert_eq!(recent, "No hours were found for today or yesterday.");
    let old = preview_of(log, TimesheetOptions::recent(), days_of(2026, 5, 28)).unwrap_err();
    assert_eq!(old, "Your timesheet is empty.");
}

#[test]
fn preview_rounds_hours_when_asked() {
    let log = "2026-04-28 09:00:00\tAlpha\n2026-04-28 09:20:00\tBeta\n2026-04-28 10:00:00\t\n";
    let mut options = TimesheetOptions::full(TimesheetRange::All);
    options.rounding_enabled = true;
    let result = preview_of(log, options, days_of(2026, 4, 28)).unwrap();
    let rows = &result.sheets[0].rows;
    // 20 and 40 minutes: both round to half an hour, keeping the hour.
    assert_eq!(rows[0].values[1], HOUR / 2);
    assert_eq!(rows[1].values[1], HOUR / 2);
    assert_eq!(rows[2].total, HOUR);
}

#[test]
fn grand_total_is_the_booked_time() {
    let log = "2026-04-19 23:00:00\tAlpha\tNight\n2026-04-20 01:00:00\tBeta\n2026-04-20 02:00:00\t\n";
    let result = preview_of(log, TimesheetOptions::full(TimesheetRange::All), days_of(2026, 4, 28)).unwrap();
    let grand: u128 = result.sheets.iter().map(|sheet| sheet.rows.last().unwrap().total).sum();
    assert_eq!(result.sheets.len(), 2);
    assert_eq!(result.sheets[0].name, "2026-16");
    assert_eq!(grand, 3 * HOUR);
}

#[test]
fn parse_log_skips_malformed_lines_and_sorts_by_time() {
    let log = "garbage\n2026-04-28 10:00:00\tB\tx\ty\n2026-04-28 09:00:00\tA\r\nnot-a-date\tC\n";
    let entries = parse_log(log, false, 0).unwrap();
    assert_eq!(entries.len(), 2);
    assert_eq!(entries[0].project, vec!['A']);
    assert_eq!(entries[1].project, vec!['B']);
    assert_eq!(entries[1].comment, "x y".chars().collect::<Vec<char>>());
}

#[test]
fn generates_for_long_stretches_past_midnight() {
    let log = "2026-04-25 19:22:00\tNight project\tLate work\n2026-04-26 02:53:00\t\n";
    let options = TimesheetOptions::full(TimesheetRange::All);
    let preview = preview_of(log, options, days_of(2026, 4, 28)).unwrap();
    let plan = export_plan(&preview, options, "2026-17");

    assert_eq!(plan.file_name, "timesheet.xlsx");
    assert_eq!(plan.sheets.len(), 1);
    assert!(plan.sheets[0].active);
    assert_eq!(plan.sheets[0].first_column_width, 42);
    assert_eq!(preview.sheets[0].rows[0].values[5], 7 * HOUR + 31 * 60);
}

#[test]
fn export_plan_writes_headers_rows_and_dashes() {
    let log = "2026-04-25 10:00:00\tBeta\tBuild\n2026-04-25 13:00:00\t\n";
    let options = TimesheetOptions::recent();
    let preview = preview_of(log, options, days_of(2026, 4, 25)).unwrap();
    let plan = export_plan(&preview, options, "2026-17");

    assert_eq!(plan.file_name, "timesheet-yesterday-today.xlsx");
    let sheet = &plan.sheets[0];
    assert_eq!(sheet.name, "Yesterday + today");
    assert_eq!(sheet.first_column_width, 16);
    assert!(sheet.active);
    let cells = &sheet.cells;
    assert!(matches!(&cells[0].content, CellContent::Text(t) if t == "Yesterday + Today"));
    assert!(matches!(&cells[1].content, CellContent::Text(t) if t == "Fri"));
    assert!(matches!(&cells[3].content, CellContent::Text(t) if t == "Total"));
    assert_eq!(cells[3].column, 3);
    assert!(matches!(&cells[4].content, CellContent::Text(t) if t == "Beta"));
    assert_eq!(cells[4].row, 1);
    assert!(matches!(cells[5].content, CellContent::Dash));
    assert_eq!(cells[5].style, CellStyle::Right);
    assert!(matches!(cells[6].content, CellContent::Hours(10800)));
    assert_eq!(cells[6].style, CellStyle::DecimalRight);
    assert!(matches!(&cells[8].content, CellContent::Text(t) if t == "  - Build"));
    assert_eq!(cells[8].style, CellStyle::Left);
}

#[test]
fn export_names_and_active_sheet_follow_the_options() {
    assert_eq!(export_file_name_of(TimesheetOptions::full(TimesheetRange::Today)), "timesheet-today.xlsx");
    assert_eq!(export_file_name_of(TimesheetOptions::full(TimesheetRange::Week)), "timesheet-week.xlsx");
    assert_eq!(
        fallback_file_name_at(TimesheetOptions::recent(), "20260428-101500"),
        "timesheet-yesterday-today-20260428-101500.xlsx"
    );
    assert_eq!(
        fallback_file_name_at(TimesheetOptions::full(TimesheetRange::All), "20260428-101500"),
        "timesheet-20260428-101500.xlsx"
    );
    assert_eq!(
        save_failure_message("a.xlsx", "b.xlsx", "denied", "locked"),
        "Failed to save a.xlsx (it may be open in Excel). Also failed to save fallback file b.xlsx: denied. Original error: locked"
    );
    let log = "2026-04-20 09:00:00\tA\n2026-04-20 10:00:00\t\n2026-04-28 09:00:00\tB\n2026-04-28 10:00:00\t\n";
    let options = TimesheetOptions::full(TimesheetRange::All);
    let preview = preview_of(log, options, days_of(2026, 4, 28)).unwrap();
    let current = export_plan(&preview, options, "2026-17");
    assert!(current.sheets[0].active && !current.sheets[1].active);
    let elsewhere = export_plan(&preview, options, "2030-1");
    assert!(!elsewhere.sheets[0].active && elsewhere.sheets[1].active);
    assert_eq!(elsewhere.sheets[1].name, "2026-18");
    let _ = TimesheetFormat::Full;
    assert!(matches!(write_hours_cell(2, 3, 0).content, CellContent::Dash));
}

#[test]
fn rounded_preview_is_the_plain_preview_rounded() {
    let log = "2026-04-28 09:00:00\tAlpha\n2026-04-28 09:20:00\tBeta\n2026-04-28 10:10:00\tGamma\tCall\n2026-04-28 10:25:00\t\n";
    let plain_options = TimesheetOptions::full(TimesheetRange::Week);
    let rounded_options = TimesheetOptions { rounding_enabled: true, ..plain_options };
    let plain = preview_of(log, plain_options, days_of(2026, 4, 28)).unwrap();
    let rounded = preview_of(log, rounded_options, days_of(2026, 4, 28)).unwrap();
    let again = projectlog::rounding::apply_rounding_to_preview(plain);
    assert_eq!(again.title, rounded.title);
    assert_eq!(again.sheets.len(), rounded.sheets.len());
    for (a, b) in again.sheets.iter().zip(rounded.sheets.iter()) {
        assert_eq!(a.name, b.name);
        assert_eq!(a.columns, b.columns);
        assert_eq!(a.rows.len(), b.rows.len());
        for (x, y) in a.rows.iter().zip(b.rows.iter()) {
            assert_eq!(x.label, y.label);
            assert_eq!(x.values, y.values);
            assert_eq!(x.total, y.total);
        }
    }
    let empty_plain = preview_of("", plain_options, days_of(2026, 4, 28)).unwrap_err();
    let empty_rounded = preview_of("", rounded_options, days_of(2026, 4, 28)).unwrap_err();
    assert_eq!(empty_plain, empty_rounded);
}

#[test]
fn a_leap_second_counts_as_a_second_of_its_own() {
    let log = "2026-04-27 23:59:00\tAlpha\n2026-04-28 00:00:00\tGamma\n2026-04-27 23:59:60\tBeta\n2026-04-28 01:00:00\t\n";
    let result =
        preview_of(log, TimesheetOptions::full(TimesheetRange::All), days_of(2026, 4, 28)).unwrap();
    assert_eq!(result.sheets.len(), 1);
    let rows = &result.sheets[0].rows;
    assert_eq!(rows.len(), 3);
    assert_eq!(rows[0].label, "Alpha");
    assert_eq!(rows[0].values, vec![60, 0, 0, 0, 0, 0, 0]);
    assert_eq!(rows[1].label, "Gamma");
    assert_eq!(rows[1].values, vec![0, HOUR, 0, 0, 0, 0, 0]);
    assert_eq!(rows[2].label, "Total");
}

use projectlog::diagnostics::{diagnostic_entry, frontend, log_from_frontend};
use projectlog::logger::{append_comment_to_last, log_new_entry, reset_log};
use projectlog::projects::{load, save};
use projectlog::repositories::{
    FileLogRepository, FileProjectRepository, FileSettingsRepository, LogRepository, ProjectRepository,
};
use projectlog::settings::{
    default_project_sort_mode, default_quickpanel_mode, default_timesheet_rounding_enabled,
    normalize_quickpanel_mode, normalize_sort_mode, UiPreferences,
};

#[test]
fn append_comment_preserves_last_character_without_trailing_newline() {
    let content = append_comment_to_last("data", b"2026-04-25 08:00:00\tProject", "Checked drawing").unwrap();
    assert_eq!(content, b"2026-04-25 08:00:00\tProject\tChecked drawing\n".to_vec());
}

#[test]
fn append_comment_replaces_trailing_newline() {
    let content = append_comment_to_last("data", b"2026-04-25 08:00:00\tProject\n", "Meeting").unwrap();
    assert_eq!(content, b"2026-04-25 08:00:00\tProject\tMeeting\n".to_vec());
}

#[test]
fn append_comment_skips_an_empty_log() {
    assert_eq!(append_comment_to_last("data", b"", "Meeting"), None);
}

#[test]
fn log_new_entry_writes_project_and_comment() {
    let line = log_new_entry("data", "Alpha", "Planning").unwrap();
    assert!(line.contains("\tAlpha\tPlanning\n"));
    assert_eq!(line.len(), "2026-04-25 08:00:00".len() + "\tAlpha\tPlanning\n".len());
}

#[test]
fn log_new_entry_without_comment_writes_two_columns() {
    let line = log_new_entry("data", "Alpha", "").unwrap();
    assert!(line.contains("\tAlpha\n"));
    assert!(!line.contains("\tAlpha\t\n"));
}

#[test]
fn reset_log_clears_existing_content() {
    assert!(reset_log("data").is_empty());
}

#[test]
fn log_repository_formats_entries() {
    let repo = FileLogRepository::new("/data");
    assert_eq!(repo.data_dir, "/data");
    assert_eq!(repo.append_entry("2026-04-25 08:00:00", "", ""), "2026-04-25 08:00:00\t\n");
    assert_eq!(
        repo.append_entry("2026-04-25 08:00:00", "Alpha", "Notes"),
        "2026-04-25 08:00:00\tAlpha\tNotes\n"
    );
    assert_eq!(repo.reset(), "");
}

#[test]
fn save_and_load_projects_roundtrip() {
    let projects = vec!["Alpha".to_string(), "Beta".to_string()];

    let content = save("data", &projects);

    assert_eq!(content, "Alpha\nBeta\n");
    assert_eq!(load("data", &content), projects);
}

#[test]
fn load_returns_empty_when_file_is_missing() {
    assert!(load("data", "").is_empty());
    assert_eq!(save("data", &[]), "");
}

#[test]
fn load_skips_blank_lines() {
    assert_eq!(
        load("data", "Alpha\n\nBeta\n\nGamma\n"),
        vec!["Alpha".to_string(), "Beta".to_string(), "Gamma".to_string()]
    );
    assert_eq!(load("data", "Alpha\r\nBeta"), vec!["Alpha".to_string(), "Beta".to_string()]);
}

#[test]
fn project_repository_uses_the_data_directory() {
    let repo = FileProjectRepository::new("/data");
    assert_eq!(repo.data_dir, "/data");
    assert_eq!(repo.load(&repo.save(&["A".to_string()])), vec!["A".to_string()]);
}

#[test]
fn settings_defaults_and_normalization() {
    let settings = UiPreferences::default();
    assert!(!settings.always_on_top);
    assert!(!settings.open_on_start);
    assert_eq!(settings.project_sort_mode, "manual");
    assert_eq!(settings.quickpanel_mode, "normal");
    assert!(!settings.timesheet_rounding_enabled);
    assert_eq!(default_project_sort_mode(), "manual");
    assert_eq!(default_quickpanel_mode(), "normal");
    assert!(!default_timesheet_rounding_enabled());
    assert_eq!(normalize_sort_mode(""), "manual");
    assert_eq!(normalize_sort_mode("sideways"), "manual");
    assert_eq!(normalize_sort_mode("recent"), "recent");
    assert_eq!(normalize_sort_mode("alphabetical"), "alphabetical");
    assert_eq!(normalize_quickpanel_mode("floating"), "normal");
    assert_eq!(normalize_quickpanel_mode("compact"), "compact");
}

#[test]
fn save_persists_normalized_values() {
    let repo = FileSettingsRepository::new("/data");
    assert_eq!(repo.data_dir, "/data");
    let mut settings = UiPreferences::default();
    settings.project_sort_mode = "zigzag".to_string();
    settings.quickpanel_mode = "mini".to_string();
    settings.always_on_top = true;
    let kept = repo.normalized(settings);
    assert_eq!(kept.project_sort_mode, "manual");
    assert_eq!(kept.quickpanel_mode, "normal");
    assert!(kept.always_on_top);
}

#[test]
fn diagnostics_lines_are_tab_separated() {
    assert_eq!(
        diagnostic_entry("2026-04-25 08:00:00.000", "info", "tray", "src/tray.rs", 42, "ready"),
        "2026-04-25 08:00:00.000\tinfo\ttray\tsrc/tray.rs:42\tready\n"
    );
    let line = frontend("warn", "panel", "clicked", Some("x=1".to_string())).unwrap();
    assert!(line.ends_with("\twarn\tpanel\tfrontend:0\tclicked | x=1\n"));
    let line = frontend("warn", "panel", "clicked", Some(String::new())).unwrap();
    assert!(line.ends_with("\tfrontend:0\tclicked\n"));
    let line = log_from_frontend("error".to_string(), "m".to_string(), "boom".to_string(), None).unwrap();
    assert!(line.ends_with("\terror\tm\tfrontend:0\tboom\n"));
}

#[test]
fn frontend_entry_stamps_the_message_with_its_data() {
    assert_eq!(
        projectlog::diagnostics::frontend_entry("2026-04-25 08:00:00.000", "warn", "panel", "clicked", Some("x=1".to_string())),
        "2026-04-25 08:00:00.000\twarn\tpanel\tfrontend:0\tclicked | x=1\n"
    );
    assert_eq!(
        projectlog::diagnostics::frontend_entry("t", "info", "m", "hi", Some(String::new())),
        "t\tinfo\tm\tfrontend:0\thi\n"
    );
}

#[test]
fn clock_error_names_the_clock() {
    assert_eq!(projectlog::clock::clock_error(), "The system clock could not be read.");
}

#[test]
fn a_new_log_line_is_read_back_by_the_log_parser() {
    let first = log_new_entry("data", "Alpha", "Planning").unwrap();
    let log = format!("{first}2100-01-01 00:00:00\t\n");
    let entries = projectlog::time_log::parse_log(&log, false, 0).unwrap();
    assert_eq!(entries.len(), 2);
    assert_eq!(entries[0].project.iter().collect::<String>(), "Alpha");
    assert_eq!(entries[0].comment.iter().collect::<String>(), "Planning");
}

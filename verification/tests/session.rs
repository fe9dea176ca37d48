use projectlog::project_controller::{ProjectSession, SessionEffect};
use projectlog::settings::{RecentUse, UiPreferences};
use projectlog::settings_controller::SettingsChange;
use projectlog::tray_menu::{
    build_menu, generate_request, menu_command, parse_index, project_from_remove_id,
    project_from_select_id, project_id, MenuCommand, MenuEntry,
};

fn session() -> ProjectSession {
    ProjectSession {
        active_project: String::new(),
        active_comment: String::new(),
        projects: vec!["Alpha".to_string()],
        adhoc_projects: Vec::new(),
        reminder_active: true,
        settings: UiPreferences::default(),
    }
}

fn is_log(effect: &SessionEffect, project: &str, comment: &str) -> bool {
    matches!(effect, SessionEffect::LogEntry { project: p, comment: c } if p == project && c == comment)
}

#[test]
fn add_project_cleans_input_and_records_use_once() {
    let mut s = session();
    let effects = s.add_project_value("  Beta \t Two ");
    assert_eq!(s.projects, vec!["Alpha".to_string(), "Beta Two".to_string()]);
    assert_eq!(effects.len(), 2);
    assert!(matches!(effects[0], SessionEffect::SaveProjects));
    assert!(matches!(effects[1], SessionEffect::SaveSettings));
    assert_eq!(s.settings.project_recent_usage.len(), 1);
    assert_eq!(s.settings.project_recent_usage[0].project, "Beta Two");

    let again = s.add_project_value("Beta Two");
    assert!(again.is_empty());
    assert!(s.add_project_value(" \n ").is_empty());
}

#[test]
fn quick_project_logs_activates_and_lists_adhoc() {
    let mut s = session();
    let effects = s.quick_project_value("Gamma");
    assert!(is_log(&effects[0], "Gamma", ""));
    assert!(matches!(effects[1], SessionEffect::SaveSettings));
    assert_eq!(s.active_project, "Gamma");
    assert!(!s.reminder_active);
    assert_eq!(s.adhoc_projects, vec!["Gamma".to_string()]);
    s.quick_project_value("Alpha");
    assert_eq!(s.adhoc_projects, vec!["Gamma".to_string()]);
}

#[test]
fn set_comment_appends_then_starts_a_new_entry() {
    let mut s = session();
    assert!(s.set_comment_value("ignored").is_empty());
    assert_eq!(s.active_comment, "");

    s.select_project("Alpha");
    let first = s.set_comment_value(" Planning ");
    assert!(matches!(&first[0], SessionEffect::AppendComment { comment } if comment == "Planning"));
    let same = s.set_comment_value("Planning");
    assert!(same.is_empty());
    let changed = s.set_comment_value("Review");
    assert!(is_log(&changed[0], "Alpha", "Review"));
    assert_eq!(s.active_comment, "Review");
}

#[test]
fn selecting_the_active_project_stops_it() {
    let mut s = session();
    let start = s.select_project("Alpha");
    assert!(is_log(&start[0], "Alpha", ""));
    assert_eq!(s.active_project, "Alpha");
    let stop = s.select_project("Alpha");
    assert!(is_log(&stop[0], "", ""));
    assert_eq!(stop.len(), 1);
    assert_eq!(s.active_project, "");
    assert!(s.select_project("   ").is_empty());
}

#[test]
fn remove_and_reset_projects() {
    let mut s = session();
    s.add_project_value("Beta");
    let effects = s.remove_project(" Alpha ");
    assert!(matches!(effects[0], SessionEffect::SaveProjects));
    assert_eq!(s.projects, vec!["Beta".to_string()]);
    s.handle_remove("Beta");
    assert!(s.projects.is_empty());
    s.add_project_value("Gamma");
    s.reset_projects();
    assert!(s.projects.is_empty());
}

#[test]
fn submit_input_dispatches_by_mode() {
    let mut s = session();
    s.submit_input("quick_project", "Delta");
    assert_eq!(s.active_project, "Delta");
    assert!(s.submit_input("unknown", "x").is_empty());
    s.submit_input("set_comment", "note");
    assert_eq!(s.active_comment, "note");
}

#[test]
fn save_ui_settings_reports_changes_and_menu_rebuilds() {
    let mut settings = UiPreferences::default();
    let unchanged = settings.save_ui_settings(false, false, false, "manual", "normal", Vec::new(), Vec::new(), false);
    assert_eq!(unchanged, SettingsChange { changed: false, rebuild_tray: false });

    let opacity = settings.save_ui_settings(false, false, true, "bogus", "normal", Vec::new(), Vec::new(), false);
    assert_eq!(opacity, SettingsChange { changed: true, rebuild_tray: false });

    let sorted = settings.save_ui_settings(
        true,
        false,
        false,
        "recent",
        "compact",
        vec!["A".to_string()],
        vec![RecentUse { project: "A".to_string(), used_at: 5 }],
        true,
    );
    assert_eq!(sorted, SettingsChange { changed: true, rebuild_tray: true });
    assert_eq!(settings.project_sort_mode, "recent");
    assert_eq!(settings.quickpanel_mode, "compact");
    assert!(settings.timesheet_rounding_enabled);

    assert!(settings.set_timesheet_rounding_enabled(false));
    assert!(!settings.set_timesheet_rounding_enabled(false));
    assert!(settings.set_quickpanel_mode("normal"));
    assert!(!settings.set_quickpanel_mode("normal"));
    assert!(!settings.set_quickpanel_mode("tiny"));
}

#[test]
fn menu_lists_projects_with_ids_and_remove_positions() {
    let mut settings = UiPreferences::default();
    settings.project_sort_mode = "alphabetical".to_string();
    let menu = build_menu(
        &["beta".to_string(), "Alpha".to_string()],
        &["Quick one".to_string()],
        "Alpha",
        "",
        true,
        &settings,
    );
    assert!(matches!(&menu[0], MenuEntry::Item { id, .. } if id == "update_available"));
    assert!(matches!(menu[1], MenuEntry::Separator));
    assert!(matches!(&menu[4], MenuEntry::Check { id, checked, .. } if id == "qp_mode::normal" && *checked));
    assert!(matches!(&menu[8], MenuEntry::Check { id, label, checked } if id == "select::Alpha" && label == "Alpha" && *checked));
    assert!(matches!(&menu[9], MenuEntry::Check { id, checked, .. } if id == "select::beta" && !*checked));
    assert!(matches!(&menu[10], MenuEntry::Check { id, .. } if *id == format!("select::{}", project_id("Quick one"))));
    assert!(matches!(&menu[12], MenuEntry::Item { id, label, enabled } if id == "set_comment" && label == "Set comment..." && *enabled));
    assert!(matches!(&menu[17], MenuEntry::Item { id, label, .. } if id == "remove::0" && label == "Alpha"));
    assert!(matches!(&menu[18], MenuEntry::Item { id, label, .. } if id == "remove::1" && label == "beta"));
    assert!(matches!(&menu[menu.len() - 1], MenuEntry::Item { id, .. } if id == "exit"));
}

#[test]
fn menu_commands_and_ids() {
    assert_eq!(menu_command("select::Alpha"), MenuCommand::Select("Alpha".to_string()));
    assert_eq!(menu_command("remove::3"), MenuCommand::Remove("3".to_string()));
    assert_eq!(menu_command("generate_sheet::recent"), MenuCommand::Generate("recent".to_string()));
    assert_eq!(menu_command("qp_mode::compact"), MenuCommand::QuickpanelMode("compact".to_string()));
    assert_eq!(menu_command("about"), MenuCommand::About);
    assert_eq!(menu_command("nothing"), MenuCommand::Unknown);
    assert_eq!(generate_request("all"), Some(("all".to_string(), "full".to_string())));
    assert_eq!(generate_request("recent"), Some(("today".to_string(), "recent".to_string())));
    assert_eq!(generate_request("week"), None);
    assert_eq!(parse_index("12"), Some(12));
    assert_eq!(parse_index("+7"), Some(7));
    assert_eq!(parse_index("-1"), None);
    assert_eq!(parse_index(""), None);
    assert_eq!(parse_index("99999999999999999999999"), None);
    let settings = UiPreferences::default();
    let projects = vec!["Alpha".to_string(), "Beta".to_string()];
    assert_eq!(project_from_remove_id("1", &projects, &settings), Some("Beta".to_string()));
    assert_eq!(project_from_remove_id("2", &projects, &settings), None);
    assert_eq!(project_from_select_id("Alpha%20Two"), Some("Alpha Two".to_string()));
}

#[test]
fn a_project_used_twice_keeps_one_recorded_use() {
    let mut s = session();
    s.remember_project_use("Alpha");
    let first = s.settings.project_recent_usage[0].used_at;
    s.remember_project_use("Beta");
    s.remember_project_use("Alpha");
    assert_eq!(s.settings.project_recent_usage.len(), 2);
    assert_eq!(s.settings.project_recent_usage[0].project, "Alpha");
    assert!(s.settings.project_recent_usage[0].used_at > first);
    assert_eq!(s.settings.project_recent_usage[1].project, "Beta");
    assert_eq!(
        projectlog::settings::usage_of_project(&s.settings.project_recent_usage, "Beta"),
        s.settings.project_recent_usage[1].used_at
    );
}

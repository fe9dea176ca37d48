use projectlog::settings::{ProjectGroup, RecentUse, UiPreferences};
use projectlog::tray_menu::{grouped_level_one, project_from_id, project_id, sorted_project_lists};

fn names(items: &[&str]) -> Vec<String> {
    items.iter().map(|s| s.to_string()).collect()
}

fn used(project: &str, used_at: u64) -> RecentUse {
    RecentUse { project: project.to_string(), used_at }
}

fn grouped(project: &str, group: &str) -> ProjectGroup {
    ProjectGroup { project: project.to_string(), group: group.to_string() }
}

#[test]
fn project_ids_roundtrip_names_instead_of_positions() {
    let name = "Client Alpha / Q3::Kickoff";
    let encoded = project_id(name);

    assert_ne!(encoded, name);
    assert_eq!(project_from_id(&encoded), Some(name.to_string()));
}

#[test]
fn project_id_escapes_reserved_and_multibyte_bytes() {
    assert_eq!(project_id("a-b_c.9"), "a-b_c.9");
    assert_eq!(project_id("a b"), "a%20b");
    assert_eq!(project_id("Zürich"), "Z%C3%BCrich");
    assert_eq!(project_from_id("Z%C3%BCrich"), Some("Zürich".to_string()));
}

#[test]
fn project_from_id_rejects_malformed_ids() {
    assert_eq!(project_from_id("abc%2"), None);
    assert_eq!(project_from_id("%zz"), None);
    assert_eq!(project_from_id("%FF"), None);
    assert_eq!(project_from_id("%2b%2B"), Some("++".to_string()));
    assert_eq!(project_from_id("%+7"), Some("\u{7}".to_string()));
    assert_eq!(project_from_id(""), Some(String::new()));
}

#[test]
fn grouped_level_one_builds_recent_ordered_group_submenus() {
    let mut settings = UiPreferences::default();
    settings.group_projects_enabled = true;
    settings.project_sort_mode = "recent".to_string();
    settings.project_groups = vec![
        grouped("Bravo", "Work"),
        grouped("Delta", "Work"),
        grouped("Charlie", "Personal"),
    ];
    settings.project_recent_usage =
        vec![used("Alpha", 40), used("Bravo", 10), used("Charlie", 30), used("Delta", 50)];

    let entries = grouped_level_one(names(&["Alpha", "Bravo", "Charlie", "Delta"]), &settings);

    assert_eq!(
        entries,
        vec![
            (Some("Work".to_string()), vec!["Delta".to_string(), "Bravo".to_string()]),
            (None, vec!["Alpha".to_string()]),
            (Some("Personal".to_string()), vec!["Charlie".to_string()]),
        ]
    );
}

#[test]
fn grouped_level_one_without_grouping_lists_each_project_alone() {
    let mut settings = UiPreferences::default();
    settings.project_groups = vec![grouped("Bravo", "Work")];
    let entries = grouped_level_one(names(&["Bravo", "Alpha"]), &settings);
    assert_eq!(
        entries,
        vec![(None, vec!["Bravo".to_string()]), (None, vec!["Alpha".to_string()])]
    );
}

#[test]
fn grouped_level_one_sorts_alphabetically_by_group_or_project_name() {
    let mut settings = UiPreferences::default();
    settings.group_projects_enabled = true;
    settings.project_sort_mode = "alphabetical".to_string();
    settings.project_groups = vec![grouped("zeta", "Home"), grouped("Alpha", "Home")];
    let entries = grouped_level_one(names(&["zeta", "beta", "Alpha"]), &settings);
    assert_eq!(
        entries,
        vec![
            (None, vec!["beta".to_string()]),
            (Some("Home".to_string()), vec!["Alpha".to_string(), "zeta".to_string()]),
        ]
    );
}

#[test]
fn grouped_level_one_keeps_insertion_order_in_manual_mode() {
    let mut settings = UiPreferences::default();
    settings.group_projects_enabled = true;
    settings.project_groups = vec![grouped("C", "G"), grouped("A", "G")];
    let entries = grouped_level_one(names(&["C", "B", "A"]), &settings);
    assert_eq!(
        entries,
        vec![
            (Some("G".to_string()), vec!["C".to_string(), "A".to_string()]),
            (None, vec!["B".to_string()]),
        ]
    );
}

#[test]
fn sorted_project_lists_alphabetical_ignores_case_and_is_stable() {
    let mut settings = UiPreferences::default();
    settings.project_sort_mode = "alphabetical".to_string();
    let (projects, adhoc) =
        sorted_project_lists(&names(&["beta", "Alpha", "alpha", "Gamma"]), &names(&["Zed", "apple"]), &settings);
    assert_eq!(projects, names(&["Alpha", "alpha", "beta", "Gamma"]));
    assert_eq!(adhoc, names(&["apple", "Zed"]));
}

#[test]
fn sorted_project_lists_recent_puts_latest_first_then_names() {
    let mut settings = UiPreferences::default();
    settings.project_sort_mode = "recent".to_string();
    settings.project_recent_usage = vec![used("Beta", 5), used("Gamma", 9)];
    let (projects, _) = sorted_project_lists(&names(&["Delta", "Beta", "Alpha", "Gamma"]), &[], &settings);
    assert_eq!(projects, names(&["Gamma", "Beta", "Alpha", "Delta"]));
}

#[test]
fn sorted_project_lists_manual_follows_saved_order_then_the_rest() {
    let mut settings = UiPreferences::default();
    settings.project_manual_order = names(&["Gamma", "Missing", "Alpha"]);
    let (projects, adhoc) =
        sorted_project_lists(&names(&["Alpha", "Beta", "Gamma", "Beta"]), &names(&["Quick"]), &settings);
    assert_eq!(projects, names(&["Gamma", "Alpha", "Beta"]));
    assert_eq!(adhoc, names(&["Quick"]));
}

//! Changes to the settings that the quick panel and the tray ask for, and
//! whether they call for saving the settings and rebuilding the tray menu.
use vstd::prelude::*;

use crate::project_controller::{has_use, use_position};
use crate::settings::{
    normalize_quickpanel_mode, normalize_sort_mode, normalized_quickpanel_mode, normalized_sort_mode,
    usage_of, uses_unique, RecentUse, UiPreferences,
};
use crate::text::{chars_of, string_views, text_is, texts_of};

verus! {

/// What a change of settings calls for: whether anything changed (the
/// settings are then to be saved and the start at login set), and whether
/// the tray menu is to be rebuilt.
#[derive(Clone, Copy, Debug, PartialEq, Eq, Structural)]
pub struct SettingsChange {
    pub changed: bool,
    pub rebuild_tray: bool,
}

/// Whether two records of uses hold the same projects with the same times,
/// in any order.
pub open spec fn same_uses(a: Seq<RecentUse>, b: Seq<RecentUse>) -> bool {
    forall|name: Seq<char>|
        #![trigger has_use(a, name)]
        #![trigger has_use(b, name)]
        has_use(a, name) == has_use(b, name) && usage_of(a, name) == usage_of(b, name)
}

/// The settings after the quick panel saves them: the modes normalized, the
/// other values as given.
pub open spec fn saved_settings(
    new: UiPreferences,
    old: UiPreferences,
    always_on_top: bool,
    open_on_start: bool,
    project_sort_mode: Seq<char>,
    quickpanel_mode: Seq<char>,
    project_manual_order: Seq<Seq<char>>,
    project_recent_usage: Seq<RecentUse>,
    timesheet_rounding_enabled: bool,
) -> bool {
    &&& new.always_on_top == always_on_top
    &&& new.open_on_start == open_on_start
    &&& new.project_sort_mode@ == normalized_sort_mode(project_sort_mode)
    &&& new.quickpanel_mode@ == normalized_quickpanel_mode(quickpanel_mode)
    &&& string_views(new.project_manual_order@) == project_manual_order
    &&& new.project_recent_usage@ == project_recent_usage
    &&& new.timesheet_rounding_enabled == timesheet_rounding_enabled
    &&& new.group_projects_enabled == old.group_projects_enabled
    &&& new.project_groups == old.project_groups
}

proof fn lemma_usage_of_position(uses: Seq<RecentUse>, name: Seq<char>)
    ensures
        match use_position(uses, name) {
            Some(i) => 0 <= i < uses.len() && uses[i].project@ == name && usage_of(uses, name)
                == uses[i].used_at,
            None => usage_of(uses, name) == 0,
        },
    decreases uses.len(),
{
    if uses.len() > 0 && uses[0].project@ != name {
        lemma_usage_of_position(uses.drop_first(), name);
    }
}

/// Whether every project with a use in `a` has the same first use in `b`.
fn uses_within(a: &Vec<RecentUse>, b: &Vec<RecentUse>) -> (r: bool)
    ensures
        r == forall|name: Seq<char>|
            #![trigger has_use(a@, name)]
            has_use(a@, name) ==> has_use(b@, name) && usage_of(a@, name) == usage_of(b@, name),
{
    let mut i: usize = 0;
    while i < a.len()
        invariant
            i <= a.len(),
            forall|k: int|
                0 <= k < i ==> has_use(b@, #[trigger] a@[k].project@) && usage_of(a@, a@[k].project@)
                    == usage_of(b@, a@[k].project@),
        decreases a.len() - i,
    {
        let name = a[i].project.as_str();
        let mine = crate::settings::usage_of_project(a, name);
        let theirs = crate::settings::usage_of_project(b, name);
        let present = crate::project_controller::has_use_of(b, name);
        if !present || mine != theirs {
            proof {
                crate::project_controller::lemma_use_position_first(a@, a@[i as int].project@, i as int);
            }
            return false;
        }
        i += 1;
    }
    proof {
        assert forall|name: Seq<char>| #![trigger has_use(a@, name)] has_use(a@, name) implies has_use(b@, name)
            && usage_of(a@, name) == usage_of(b@, name) by {
            lemma_usage_of_position(a@, name);
            let k = use_position(a@, name)->0;
            assert(a@[k].project@ == name);
        }
    }
    true
}

/// Whether two records of uses are the same (`same_uses`).
fn same_uses_of(a: &Vec<RecentUse>, b: &Vec<RecentUse>) -> (r: bool)
    ensures
        r == same_uses(a@, b@),
{
    let ab = uses_within(a, b);
    let ba = uses_within(b, a);
    proof {
        if !ab {
            let name = choose|name: Seq<char>|
                !(has_use(a@, name) ==> has_use(b@, name) && usage_of(a@, name) == usage_of(b@, name));
            assert(has_use(a@, name));
        }
        if !ba {
            let name = choose|name: Seq<char>|
                !(has_use(b@, name) ==> has_use(a@, name) && usage_of(b@, name) == usage_of(a@, name));
            assert(has_use(b@, name));
        }
        if ab && ba {
            assert forall|name: Seq<char>|
                #![trigger has_use(a@, name)]
                #![trigger has_use(b@, name)]
                has_use(a@, name) == has_use(b@, name) && usage_of(a@, name) == usage_of(b@, name) by {
                if !has_use(a@, name) && !has_use(b@, name) {
                    lemma_usage_of_position(a@, name);
                    lemma_usage_of_position(b@, name);
                }
            }
        }
    }
    ab && ba
}

/// Whether two lists of names are the same.
fn same_names(a: &Vec<String>, b: &Vec<String>) -> (r: bool)
    ensures
        r == (string_views(a@) == string_views(b@)),
{
    let ta = texts_of(a.as_slice());
    let tb = texts_of(b.as_slice());
    if ta.len() != tb.len() {
        proof {
            assert(crate::text::texts(ta@).len() != crate::text::texts(tb@).len());
        }
        return false;
    }
    let mut i: usize = 0;
    while i < ta.len()
        invariant
            crate::text::texts(ta@) == string_views(a@),
            crate::text::texts(tb@) == string_views(b@),
            ta.len() == tb.len(),
            i <= ta.len(),
            forall|k: int| 0 <= k < i ==> ta@[k]@ == tb@[k]@,
        decreases ta.len() - i,
    {
        if !crate::text::chars_equal(ta[i].as_slice(), tb[i].as_slice()) {
            proof {
                assert(crate::text::texts(ta@)[i as int] != crate::text::texts(tb@)[i as int]);
            }
            return false;
        }
        i += 1;
    }
    proof {
        assert(crate::text::texts(ta@) =~= crate::text::texts(tb@));
    }
    true
}

impl UiPreferences {
    /// Takes the settings the quick panel saves: the modes normalized, the
    /// rest as given (`saved_settings`), when anything differs from what is
    /// kept (`opacity_changed` tells whether the quick panel's opacity did);
    /// the tray menu is to be rebuilt when a mode, the manual order or the
    /// recorded uses differ. When nothing differs nothing changes.
    pub fn save_ui_settings(
        &mut self,
        always_on_top: bool,
        open_on_start: bool,
        opacity_changed: bool,
        project_sort_mode: &str,
        quickpanel_mode: &str,
        project_manual_order: Vec<String>,
        project_recent_usage: Vec<RecentUse>,
        timesheet_rounding_enabled: bool,
    ) -> (r: SettingsChange)
        ensures
            r.rebuild_tray == (old(self).project_sort_mode@ != normalized_sort_mode(project_sort_mode@)
                || old(self).quickpanel_mode@ != normalized_quickpanel_mode(quickpanel_mode@)
                || string_views(old(self).project_manual_order@) != string_views(project_manual_order@)
                || !same_uses(old(self).project_recent_usage@, project_recent_usage@)),
            r.changed == (old(self).always_on_top != always_on_top || old(self).open_on_start
                != open_on_start || opacity_changed || old(self).timesheet_rounding_enabled
                != timesheet_rounding_enabled || r.rebuild_tray),
            r.changed ==> saved_settings(
                *final(self),
                *old(self),
                always_on_top,
                open_on_start,
                project_sort_mode@,
                quickpanel_mode@,
                string_views(project_manual_order@),
                project_recent_usage@,
                timesheet_rounding_enabled,
            ),
            !r.changed ==> *final(self) == *old(self),
            old(self).has_unique_names() && uses_unique(project_recent_usage@) ==> final(self).has_unique_names(),
    {
        let sort_mode = normalize_sort_mode(project_sort_mode);
        let panel_mode = normalize_quickpanel_mode(quickpanel_mode);
        let rebuild_tray = !text_is(self.project_sort_mode.as_str(), sort_mode.as_str()) || !text_is(
            self.quickpanel_mode.as_str(),
            panel_mode.as_str(),
        ) || !same_names(&self.project_manual_order, &project_manual_order) || !same_uses_of(
            &self.project_recent_usage,
            &project_recent_usage,
        );
        let changed = self.always_on_top != always_on_top || self.open_on_start != open_on_start
            || opacity_changed || self.timesheet_rounding_enabled != timesheet_rounding_enabled
            || rebuild_tray;
        if !changed {
            return SettingsChange { changed: false, rebuild_tray: false };
        }
        self.always_on_top = always_on_top;
        self.open_on_start = open_on_start;
        self.project_sort_mode = sort_mode;
        self.quickpanel_mode = panel_mode;
        self.project_manual_order = project_manual_order;
        self.project_recent_usage = project_recent_usage;
        self.timesheet_rounding_enabled = timesheet_rounding_enabled;
        SettingsChange { changed: true, rebuild_tray }
    }

    /// Turns the rounding of timesheets on or off; whether it changed (the
    /// settings are then to be saved).
    pub fn set_timesheet_rounding_enabled(&mut self, enabled: bool) -> (r: bool)
        ensures
            r == (old(self).timesheet_rounding_enabled != enabled),
            final(self).timesheet_rounding_enabled == enabled,
            *final(self) == (UiPreferences { timesheet_rounding_enabled: enabled, ..*old(self) }),
            old(self).has_unique_names() ==> final(self).has_unique_names(),
    {
        if self.timesheet_rounding_enabled == enabled {
            return false;
        }
        self.timesheet_rounding_enabled = enabled;
        true
    }

    /// Switches the quick panel to `normal` or `compact`; any other mode and
    /// the current one change nothing. Whether it changed (the settings are
    /// then to be saved and the tray menu rebuilt).
    pub fn set_quickpanel_mode(&mut self, mode: &str) -> (r: bool)
        ensures
            r == ((mode@ == "normal"@ || mode@ == "compact"@) && old(self).quickpanel_mode@ != mode@),
            r ==> final(self).quickpanel_mode@ == mode@ && final(self).always_on_top
                == old(self).always_on_top && final(self).open_on_start == old(self).open_on_start
                && final(self).project_sort_mode == old(self).project_sort_mode
                && final(self).project_manual_order == old(self).project_manual_order
                && final(self).project_recent_usage == old(self).project_recent_usage
                && final(self).timesheet_rounding_enabled == old(self).timesheet_rounding_enabled
                && final(self).group_projects_enabled == old(self).group_projects_enabled
                && final(self).project_groups == old(self).project_groups,
            !r ==> *final(self) == *old(self),
            old(self).has_unique_names() ==> final(self).has_unique_names(),
    {
        if !text_is(mode, "normal") && !text_is(mode, "compact") {
            return false;
        }
        if text_is(self.quickpanel_mode.as_str(), mode) {
            return false;
        }
        self.quickpanel_mode = mode.to_string();
        true
    }
}

} // verus!

//! What the quick panel and the tray do with projects: which project is
//! active, its comment, the permanent and ad-hoc project lists, and when each
//! project was last used. Each operation changes the session and returns
//! what is to be written: log lines, a comment on the last log line, the
//! project list, the settings.
use vstd::prelude::*;

use crate::settings::{next_recent_usage_timestamp, next_use, usage_of, uses_unique, RecentUse, UiPreferences};
use crate::text::{
    chars_of, clean_input, cleaned, contains_text, string_views, strings_of, text_is, texts, texts_of,
};

verus! {

/// The state the application keeps about projects.
pub struct ProjectSession {
    pub active_project: String,
    pub active_comment: String,
    pub projects: Vec<String>,
    pub adhoc_projects: Vec<String>,
    pub reminder_active: bool,
    pub settings: UiPreferences,
}

/// What an operation asks to be written.
#[derive(Debug)]
pub enum SessionEffect {
    /// Append a log line for a switch to `project` with `comment`.
    LogEntry { project: String, comment: String },
    /// Add `comment` to the last line of the log.
    AppendComment { comment: String },
    /// Write the permanent project list.
    SaveProjects,
    /// Write the settings.
    SaveSettings,
}

/// An effect as values.
pub enum EffectView {
    LogEntry(Seq<char>, Seq<char>),
    AppendComment(Seq<char>),
    SaveProjects,
    SaveSettings,
}

/// An effect as values.
pub open spec fn effect_view(e: SessionEffect) -> EffectView {
    match e {
        SessionEffect::LogEntry { project, comment } => EffectView::LogEntry(project@, comment@),
        SessionEffect::AppendComment { comment } => EffectView::AppendComment(comment@),
        SessionEffect::SaveProjects => EffectView::SaveProjects,
        SessionEffect::SaveSettings => EffectView::SaveSettings,
    }
}

/// Effects as values.
pub open spec fn effect_views(es: Seq<SessionEffect>) -> Seq<EffectView> {
    es.map_values(|e: SessionEffect| effect_view(e))
}

/// The position of the first recorded use of a project.
pub open spec fn use_position(uses: Seq<RecentUse>, name: Seq<char>) -> Option<int>
    decreases uses.len(),
{
    if uses.len() == 0 {
        None
    } else if uses[0].project@ == name {
        Some(0)
    } else {
        match use_position(uses.drop_first(), name) {
            Some(i) => Some(i + 1),
            None => None,
        }
    }
}

/// `new` records the use of `name` at `t` on top of `old`: its first entry
/// takes the time, or an entry is added at the end.
pub open spec fn records_use(new: Seq<RecentUse>, old: Seq<RecentUse>, name: Seq<char>, t: int) -> bool {
    match use_position(old, name) {
        Some(i) => {
            &&& new.len() == old.len()
            &&& new[i].project@ == name
            &&& new[i].used_at == t
            &&& forall|k: int| 0 <= k < old.len() && k != i ==> #[trigger] new[k] == old[k]
        },
        None => {
            &&& new.len() == old.len() + 1
            &&& forall|k: int| 0 <= k < old.len() ==> #[trigger] new[k] == old[k]
            &&& new.last().project@ == name
            &&& new.last().used_at == t
        },
    }
}

/// The settings are the same but for the recorded uses.
pub open spec fn same_but_uses(a: UiPreferences, b: UiPreferences) -> bool {
    &&& a.always_on_top == b.always_on_top
    &&& a.open_on_start == b.open_on_start
    &&& a.project_sort_mode == b.project_sort_mode
    &&& a.quickpanel_mode == b.quickpanel_mode
    &&& a.project_manual_order == b.project_manual_order
    &&& a.timesheet_rounding_enabled == b.timesheet_rounding_enabled
    &&& a.group_projects_enabled == b.group_projects_enabled
    &&& a.project_groups == b.project_groups
}

/// `new` has recorded a use of `name` now (at `next_use` of some clock
/// reading), and the session is otherwise unchanged.
pub open spec fn remembers_use(new: ProjectSession, old: ProjectSession, name: Seq<char>) -> bool {
    &&& exists|now: int|
        #[trigger] records_use(
            new.settings.project_recent_usage@,
            old.settings.project_recent_usage@,
            name,
            next_use(now, old.settings.project_recent_usage@),
        )
    &&& same_but_uses(new.settings, old.settings)
}

/// The lists, active project and comment and the reminder are unchanged.
pub open spec fn same_lists_and_activity(a: ProjectSession, b: ProjectSession) -> bool {
    &&& a.active_project@ == b.active_project@
    &&& a.active_comment@ == b.active_comment@
    &&& string_views(a.projects@) == string_views(b.projects@)
    &&& string_views(a.adhoc_projects@) == string_views(b.adhoc_projects@)
    &&& a.reminder_active == b.reminder_active
}

/// The whole session is unchanged.
pub open spec fn unchanged(a: ProjectSession, b: ProjectSession) -> bool {
    same_lists_and_activity(a, b) && a.settings == b.settings
}

/// Whether a project has a recorded use.
pub open spec fn has_use(uses: Seq<RecentUse>, name: Seq<char>) -> bool {
    use_position(uses, name) is Some
}

/// What adding a project does (`add_project_value`): nothing for empty
/// cleaned input; otherwise the project joins the permanent list unless it
/// is there (the list is then to be written), and gets a recorded use unless
/// it has one (the settings are then to be written).
pub open spec fn adds_project(new: ProjectSession, old: ProjectSession, value: Seq<char>, effects: Seq<EffectView>) -> bool {
    let v = cleaned(value);
    let listed = string_views(old.projects@).contains(v);
    let used = has_use(old.settings.project_recent_usage@, v);
    if v.len() == 0 {
        unchanged(new, old) && effects.len() == 0
    } else {
        &&& new.active_project@ == old.active_project@
        &&& new.active_comment@ == old.active_comment@
        &&& string_views(new.adhoc_projects@) == string_views(old.adhoc_projects@)
        &&& new.reminder_active == old.reminder_active
        &&& string_views(new.projects@) == if listed {
            string_views(old.projects@)
        } else {
            string_views(old.projects@).push(v)
        }
        &&& if used {
            new.settings == old.settings
        } else {
            remembers_use(new, old, v)
        }
        &&& effects == (if listed {
            Seq::<EffectView>::empty()
        } else {
            seq![EffectView::SaveProjects]
        }) + (if used {
            Seq::<EffectView>::empty()
        } else {
            seq![EffectView::SaveSettings]
        })
    }
}

/// What switching to a project at once does (`quick_project_value`).
pub open spec fn switches_quickly(
    new: ProjectSession,
    old: ProjectSession,
    value: Seq<char>,
    effects: Seq<EffectView>,
) -> bool {
    let v = cleaned(value);
    if v.len() == 0 {
        unchanged(new, old) && effects.len() == 0
    } else {
        &&& new.active_project@ == v
        &&& new.active_comment@.len() == 0
        &&& !new.reminder_active
        &&& string_views(new.projects@) == string_views(old.projects@)
        &&& string_views(new.adhoc_projects@) == if string_views(
            old.projects@,
        ).contains(v) || string_views(old.adhoc_projects@).contains(v) {
            string_views(old.adhoc_projects@)
        } else {
            string_views(old.adhoc_projects@).push(v)
        }
        &&& remembers_use(new, old, v)
        &&& effects == seq![
            EffectView::LogEntry(v, Seq::<char>::empty()),
            EffectView::SaveSettings,
        ]
    }
}

/// What setting the comment does (`set_comment_value`).
pub open spec fn sets_comment(new: ProjectSession, old: ProjectSession, value: Seq<char>, effects: Seq<EffectView>) -> bool {
    let v = cleaned(value);
    let active = old.active_project@;
    let comment = old.active_comment@;
    if active.len() == 0 {
        unchanged(new, old) && effects.len() == 0
    } else {
        &&& new.active_comment@ == v
        &&& new.active_project@ == active
        &&& string_views(new.projects@) == string_views(old.projects@)
        &&& string_views(new.adhoc_projects@) == string_views(old.adhoc_projects@)
        &&& new.reminder_active == old.reminder_active
        &&& new.settings == old.settings
        &&& effects == if comment.len() == 0 && v.len() > 0 {
            seq![EffectView::AppendComment(v)]
        } else if comment.len() > 0 && v != comment {
            seq![EffectView::LogEntry(active, v)]
        } else {
            Seq::<EffectView>::empty()
        }
    }
}

/// Setting a comment keeps the log in step with it: while a project is
/// active, a comment that differs from the current one (the empty comment
/// included) is recorded by exactly one effect, a new log line for the
/// active project with that comment, or, when there was no comment yet,
/// the comment added to the last line; the same comment records nothing.
pub proof fn lemma_comment_change_is_logged(
    new: ProjectSession,
    old: ProjectSession,
    value: Seq<char>,
    effects: Seq<EffectView>,
)
    requires
        sets_comment(new, old, value, effects),
        old.active_project@.len() > 0,
    ensures
        new.active_comment@ == cleaned(value),
        new.active_project@ == old.active_project@,
        cleaned(value) == old.active_comment@ ==> effects.len() == 0,
        cleaned(value) != old.active_comment@ && old.active_comment@.len() > 0 ==> effects == seq![
            EffectView::LogEntry(old.active_project@, cleaned(value)),
        ],
        cleaned(value) != old.active_comment@ && old.active_comment@.len() == 0 ==> effects == seq![
            EffectView::AppendComment(cleaned(value)),
        ],
{
    if cleaned(value).len() == 0 && old.active_comment@.len() == 0 {
        assert(cleaned(value) =~= old.active_comment@);
    }
}

/// Recording a use depends on the settings alone.
proof fn lemma_remembers_use_same_settings(new: ProjectSession, mid: ProjectSession, old: ProjectSession, name: Seq<char>)
    requires
        remembers_use(new, mid, name),
        mid.settings == old.settings,
    ensures
        remembers_use(new, old, name),
{
    let now = choose|now: int|
        #[trigger] records_use(
            new.settings.project_recent_usage@,
            mid.settings.project_recent_usage@,
            name,
            next_use(now, mid.settings.project_recent_usage@),
        );
    assert(records_use(
        new.settings.project_recent_usage@,
        old.settings.project_recent_usage@,
        name,
        next_use(now, old.settings.project_recent_usage@),
    ));
}

// ---------------------------------------------------------------------------
// Recorded uses
// ---------------------------------------------------------------------------

proof fn lemma_use_position_found(uses: Seq<RecentUse>, name: Seq<char>, j: int)
    requires
        0 <= j < uses.len(),
        uses[j].project@ == name,
        forall|k: int| 0 <= k < j ==> uses[k].project@ != name,
    ensures
        use_position(uses, name) == Some(j),
    decreases j,
{
    if j > 0 {
        lemma_use_position_found(uses.drop_first(), name, j - 1);
    }
}

/// A project with an entry has a recorded use.
pub proof fn lemma_use_position_first(uses: Seq<RecentUse>, name: Seq<char>, i: int)
    requires
        0 <= i < uses.len(),
        uses[i].project@ == name,
    ensures
        has_use(uses, name),
    decreases i,
{
    if uses[0].project@ != name {
        lemma_use_position_first(uses.drop_first(), name, i - 1);
    }
}

proof fn lemma_use_position_missing(uses: Seq<RecentUse>, name: Seq<char>)
    requires
        forall|k: int| 0 <= k < uses.len() ==> uses[k].project@ != name,
    ensures
        use_position(uses, name) is None,
    decreases uses.len(),
{
    if uses.len() > 0 {
        lemma_use_position_missing(uses.drop_first(), name);
    }
}

proof fn lemma_use_position_names(uses: Seq<RecentUse>, name: Seq<char>)
    ensures
        match use_position(uses, name) {
            Some(i) => 0 <= i < uses.len() && uses[i].project@ == name,
            None => forall|k: int| 0 <= k < uses.len() ==> (#[trigger] uses[k]).project@ != name,
        },
    decreases uses.len(),
{
    if uses.len() > 0 && uses[0].project@ != name {
        let rest = uses.drop_first();
        lemma_use_position_names(rest, name);
        if use_position(rest, name) is None {
            assert forall|k: int| 0 <= k < uses.len() implies (#[trigger] uses[k]).project@ != name by {
                if k > 0 {
                    assert(uses[k] == rest[k - 1]);
                }
            }
        }
    }
}

/// Recording a use keeps each project named once in the recorded uses.
pub proof fn lemma_records_use_keeps_names_unique(
    new: Seq<RecentUse>,
    old: Seq<RecentUse>,
    name: Seq<char>,
    t: int,
)
    requires
        records_use(new, old, name, t),
        uses_unique(old),
    ensures
        uses_unique(new),
{
    lemma_use_position_names(old, name);
    match use_position(old, name) {
        Some(p) => {
            assert forall|i: int, j: int| 0 <= i < j < new.len() implies (#[trigger] new[i]).project@
                != (#[trigger] new[j]).project@ by {
                assert(old[i].project@ != old[j].project@);
                if i != p {
                    assert(new[i] == old[i]);
                }
                if j != p {
                    assert(new[j] == old[j]);
                }
            }
        },
        None => {
            assert forall|i: int, j: int| 0 <= i < j < new.len() implies (#[trigger] new[i]).project@
                != (#[trigger] new[j]).project@ by {
                assert(new[i] == old[i]);
                if j < old.len() {
                    assert(new[j] == old[j]);
                    assert(old[i].project@ != old[j].project@);
                } else {
                    assert(new[j] == new.last());
                    assert(old[i].project@ != name);
                }
            }
        },
    }
}

/// Records the use of `name` at `t` (`records_use`).
fn record_use(uses: &mut Vec<RecentUse>, name: &str, t: u64)
    ensures
        records_use(final(uses)@, old(uses)@, name@, t as int),
        uses_unique(old(uses)@) ==> uses_unique(final(uses)@),
{
    let mut i: usize = 0;
    while i < uses.len()
        invariant
            i <= uses.len(),
            uses@ == old(uses)@,
            forall|k: int| 0 <= k < i ==> uses@[k].project@ != name@,
        decreases uses.len() - i,
    {
        if text_is(uses[i].project.as_str(), name) {
            proof {
                lemma_use_position_found(uses@, name@, i as int);
            }
            let project = uses[i].project.as_str().to_string();
            uses.set(i, RecentUse { project, used_at: t });
            proof {
                if uses_unique(old(uses)@) {
                    lemma_records_use_keeps_names_unique(uses@, old(uses)@, name@, t as int);
                }
            }
            return;
        }
        i += 1;
    }
    proof {
        lemma_use_position_missing(uses@, name@);
    }
    uses.push(RecentUse { project: name.to_string(), used_at: t });
    proof {
        if uses_unique(old(uses)@) {
            lemma_records_use_keeps_names_unique(uses@, old(uses)@, name@, t as int);
        }
    }
}

/// Whether a project has a recorded use (`has_use`).
pub(crate) fn has_use_of(uses: &Vec<RecentUse>, name: &str) -> (r: bool)
    ensures
        r == has_use(uses@, name@),
{
    let mut i: usize = 0;
    while i < uses.len()
        invariant
            i <= uses.len(),
            forall|k: int| 0 <= k < i ==> uses@[k].project@ != name@,
        decreases uses.len() - i,
    {
        if text_is(uses[i].project.as_str(), name) {
            proof {
                lemma_use_position_found(uses@, name@, i as int);
            }
            return true;
        }
        i += 1;
    }
    proof {
        lemma_use_position_missing(uses@, name@);
    }
    false
}

/// Whether a list holds a name.
fn holds(list: &Vec<String>, name: &str) -> (r: bool)
    ensures
        r == string_views(list@).contains(name@),
{
    let ts = texts_of(list.as_slice());
    let n = chars_of(name);
    contains_text(&ts, n.as_slice())
}

impl ProjectSession {
    /// A session over the permanent `projects` and the `settings`: no
    /// project active, no comment, no ad-hoc projects, the reminder on.
    pub fn new(projects: Vec<String>, settings: UiPreferences) -> (r: Self)
        ensures
            r.active_project@.len() == 0,
            r.active_comment@.len() == 0,
            r.projects == projects,
            r.adhoc_projects@.len() == 0,
            r.reminder_active,
            r.settings == settings,
    {
        ProjectSession {
            active_project: String::new(),
            active_comment: String::new(),
            projects,
            adhoc_projects: Vec::new(),
            reminder_active: true,
            settings,
        }
    }

    /// The value an input prompt opens with: the comment when it asks for a
    /// comment, otherwise nothing.
    pub fn input_value(&self, mode: &str) -> (r: String)
        ensures
            r@ == if mode@ == "set_comment"@ {
                self.active_comment@
            } else {
                Seq::<char>::empty()
            },
    {
        if text_is(mode, "set_comment") {
            self.active_comment.as_str().to_string()
        } else {
            String::new()
        }
    }

    /// Records that `project` is used now, unless it is empty; the settings
    /// are then to be written.
    pub fn remember_project_use(&mut self, project: &str) -> (r: Vec<SessionEffect>)
        ensures
            old(self).settings.has_unique_names() ==> final(self).settings.has_unique_names(),
            project@.len() == 0 ==> unchanged(*final(self), *old(self)) && r@.len() == 0,
            project@.len() > 0 ==> remembers_use(*final(self), *old(self), project@)
                && same_lists_and_activity(*final(self), *old(self)) && effect_views(r@) == seq![
                EffectView::SaveSettings,
            ],
    {
        let mut effects: Vec<SessionEffect> = Vec::new();
        if project.is_empty() {
            return effects;
        }
        let t = next_recent_usage_timestamp(&self.settings);
        let ghost now = choose|now: u64| t == next_use(now as int, old(self).settings.project_recent_usage@);
        record_use(&mut self.settings.project_recent_usage, project, t);
        proof {
            assert(records_use(
                self.settings.project_recent_usage@,
                old(self).settings.project_recent_usage@,
                project@,
                next_use(now as int, old(self).settings.project_recent_usage@),
            ));
        }
        effects.push(SessionEffect::SaveSettings);
        proof {
            assert(effect_views(effects@) =~= seq![EffectView::SaveSettings]);
        }
        effects
    }

    /// Adds a project, its input cleaned (`cleaned`): nothing for empty
    /// input; otherwise the project joins the permanent list unless it is
    /// there (which is then to be written), and gets a recorded use unless it
    /// has one (the settings are then to be written).
    pub fn add_project_value(&mut self, value: &str) -> (r: Vec<SessionEffect>)
        ensures
            old(self).settings.has_unique_names() ==> final(self).settings.has_unique_names(),
            adds_project(*final(self), *old(self), value@, effect_views(r@)),

    {
        let text = clean_input(value);
        let mut effects: Vec<SessionEffect> = Vec::new();
        if text.as_str().is_empty() {
            return effects;
        }
        let listed = holds(&self.projects, text.as_str());
        if !listed {
            let ghost before = string_views(self.projects@);
            self.projects.push(text.as_str().to_string());
            proof {
                assert(string_views(self.projects@) =~= before.push(text@));
            }
            effects.push(SessionEffect::SaveProjects);
        }
        let ghost mid = effect_views(effects@);
        let used = has_use_of(&self.settings.project_recent_usage, text.as_str());
        if !used {
            let t = next_recent_usage_timestamp(&self.settings);
            let ghost now = choose|now: u64| t == next_use(now as int, old(self).settings.project_recent_usage@);
            record_use(&mut self.settings.project_recent_usage, text.as_str(), t);
            proof {
                assert(records_use(
                    self.settings.project_recent_usage@,
                    old(self).settings.project_recent_usage@,
                    text@,
                    next_use(now as int, old(self).settings.project_recent_usage@),
                ));
            }
            effects.push(SessionEffect::SaveSettings);
            proof {
                assert(effect_views(effects@) =~= mid.push(EffectView::SaveSettings));
            }
        }
        proof {
            if listed {
                assert(mid =~= Seq::<EffectView>::empty());
            } else {
                assert(mid =~= seq![EffectView::SaveProjects]);
            }
            if used {
                assert(effect_views(effects@) =~= mid + Seq::<EffectView>::empty());
            } else {
                assert(effect_views(effects@) =~= mid + seq![EffectView::SaveSettings]);
            }
        }
        effects
    }

    /// Switches to a project at once, its input cleaned (`cleaned`): nothing
    /// for empty input; otherwise the reminder stops, a log line records the
    /// switch, the project becomes active without a comment, its use is
    /// recorded (the settings are then to be written), and it joins the
    /// ad-hoc list unless it is in one of the lists.
    pub fn quick_project_value(&mut self, value: &str) -> (r: Vec<SessionEffect>)
        ensures
            old(self).settings.has_unique_names() ==> final(self).settings.has_unique_names(),
            switches_quickly(*final(self), *old(self), value@, effect_views(r@)),

    {
        let text = clean_input(value);
        let mut effects: Vec<SessionEffect> = Vec::new();
        if text.as_str().is_empty() {
            return effects;
        }
        self.reminder_active = false;
        effects.push(SessionEffect::LogEntry { project: text.as_str().to_string(), comment: String::new() });
        self.active_project = text.as_str().to_string();
        self.active_comment = String::new();
        let ghost before_use = *self;
        let ghost first = effect_views(effects@);
        let mut more = self.remember_project_use(text.as_str());
        let ghost added = effect_views(more@);
        effects.append(&mut more);
        proof {
            assert(effect_views(effects@) =~= first + added);
        }
        let in_permanent = holds(&self.projects, text.as_str());
        if !in_permanent {
            if !holds(&self.adhoc_projects, text.as_str()) {
                let ghost before = string_views(self.adhoc_projects@);
                self.adhoc_projects.push(text.as_str().to_string());
                proof {
                    assert(string_views(self.adhoc_projects@) =~= before.push(text@));
                }
            }
        }
        proof {
            assert(effect_views(effects@) =~= seq![
                EffectView::LogEntry(text@, Seq::<char>::empty()),
                EffectView::SaveSettings,
            ]);
            assert(before_use.settings == old(self).settings);
            lemma_remembers_use_same_settings(*self, before_use, *old(self), text@);
        }
        effects
    }

    /// Sets the comment of the active project, its input cleaned
    /// (`cleaned`): nothing without an active project; otherwise a first
    /// comment is added to the last log line, a changed comment starts a new
    /// log line for the active project, and the comment is kept.
    pub fn set_comment_value(&mut self, value: &str) -> (r: Vec<SessionEffect>)
        ensures
            old(self).settings.has_unique_names() ==> final(self).settings.has_unique_names(),
            sets_comment(*final(self), *old(self), value@, effect_views(r@)),

    {
        let text = clean_input(value);
        let mut effects: Vec<SessionEffect> = Vec::new();
        if self.active_project.as_str().is_empty() {
            return effects;
        }
        if self.active_comment.as_str().is_empty() && !text.as_str().is_empty() {
            effects.push(SessionEffect::AppendComment { comment: text.as_str().to_string() });
        } else if !self.active_comment.as_str().is_empty() && !text_is(text.as_str(), self.active_comment.as_str()) {
            effects.push(
                SessionEffect::LogEntry {
                    project: self.active_project.as_str().to_string(),
                    comment: text.as_str().to_string(),
                },
            );
        }
        self.active_comment = text;
        proof {
            let v = text@;
            if old(self).active_comment@.len() == 0 && v.len() > 0 {
                assert(effect_views(effects@) =~= seq![EffectView::AppendComment(v)]);
            } else if old(self).active_comment@.len() > 0 && v != old(self).active_comment@ {
                assert(effect_views(effects@) =~= seq![
                    EffectView::LogEntry(old(self).active_project@, v),
                ]);
            } else {
                assert(effect_views(effects@) =~= Seq::<EffectView>::empty());
            }
        }
        effects
    }

    /// Switches to the project `name` as the tray menu does: selecting the
    /// active project stops it (a log line with no project), any other
    /// becomes active and gets a recorded use; the reminder stops and the
    /// comment is cleared.
    pub fn handle_select(&mut self, name: &str) -> (r: Vec<SessionEffect>)
        ensures
            old(self).settings.has_unique_names() ==> final(self).settings.has_unique_names(),
            !final(self).reminder_active,
            final(self).active_comment@.len() == 0,
            string_views(final(self).projects@) == string_views(old(self).projects@),
            string_views(final(self).adhoc_projects@) == string_views(old(self).adhoc_projects@),
            old(self).active_project@ == name@ ==> final(self).active_project@.len() == 0
                && final(self).settings == old(self).settings && effect_views(r@) == seq![
                EffectView::LogEntry(Seq::<char>::empty(), Seq::<char>::empty()),
            ],
            old(self).active_project@ != name@ ==> final(self).active_project@ == name@ && (if name@.len()
                == 0 {
                final(self).settings == old(self).settings && effect_views(r@) == seq![
                    EffectView::LogEntry(name@, Seq::<char>::empty()),
                ]
            } else {
                remembers_use(*final(self), *old(self), name@) && effect_views(r@) == seq![
                    EffectView::LogEntry(name@, Seq::<char>::empty()),
                    EffectView::SaveSettings,
                ]
            }),
    {
        self.reminder_active = false;
        self.active_comment = String::new();
        let mut effects: Vec<SessionEffect> = Vec::new();
        if text_is(self.active_project.as_str(), name) {
            effects.push(SessionEffect::LogEntry { project: String::new(), comment: String::new() });
            self.active_project = String::new();
            proof {
                assert(effect_views(effects@) =~= seq![
                    EffectView::LogEntry(Seq::<char>::empty(), Seq::<char>::empty()),
                ]);
            }
        } else {
            effects.push(SessionEffect::LogEntry { project: name.to_string(), comment: String::new() });
            self.active_project = name.to_string();
            let ghost before_use = *self;
            let ghost first = effect_views(effects@);
            let mut more = self.remember_project_use(name);
            let ghost added = effect_views(more@);
            effects.append(&mut more);
            proof {
                assert(effect_views(effects@) =~= first + added);
                assert(before_use.settings == old(self).settings);
                if name@.len() == 0 {
                    assert(effect_views(effects@) =~= seq![
                        EffectView::LogEntry(name@, Seq::<char>::empty()),
                    ]);
                } else {
                    assert(effect_views(effects@) =~= seq![
                        EffectView::LogEntry(name@, Seq::<char>::empty()),
                        EffectView::SaveSettings,
                    ]);
                    assert(remembers_use(*self, before_use, name@));
                    lemma_remembers_use_same_settings(*self, before_use, *old(self), name@);
                    assert(remembers_use(*self, *old(self), name@));
                }
                assert(self.active_project@ == name@);
            }
        }
        effects
    }

    /// Switches to a project as the quick panel asks, its input cleaned
    /// (`cleaned`): nothing for empty input, else as `handle_select` does.
    pub fn select_project(&mut self, project: &str) -> (r: Vec<SessionEffect>)
        ensures
            old(self).settings.has_unique_names() ==> final(self).settings.has_unique_names(),
            ({
                let p = cleaned(project@);
                if p.len() == 0 {
                    unchanged(*final(self), *old(self)) && r@.len() == 0
                } else {
                    &&& !final(self).reminder_active
                    &&& final(self).active_comment@.len() == 0
                    &&& string_views(final(self).projects@) == string_views(old(self).projects@)
                    &&& string_views(final(self).adhoc_projects@) == string_views(old(self).adhoc_projects@)
                    &&& if old(self).active_project@ == p {
                        &&& final(self).active_project@.len() == 0
                        &&& final(self).settings == old(self).settings
                        &&& effect_views(r@) == seq![
                            EffectView::LogEntry(Seq::<char>::empty(), Seq::<char>::empty()),
                        ]
                    } else {
                        &&& final(self).active_project@ == p
                        &&& remembers_use(*final(self), *old(self), p)
                        &&& effect_views(r@) == seq![
                            EffectView::LogEntry(p, Seq::<char>::empty()),
                            EffectView::SaveSettings,
                        ]
                    }
                }
            }),
    {
        let name = clean_input(project);
        if name.as_str().is_empty() {
            return Vec::new();
        }
        self.handle_select(name.as_str())
    }

    /// Removes `name` from the permanent list as the tray menu does; the
    /// list is then to be written.
    pub fn handle_remove(&mut self, name: &str) -> (r: Vec<SessionEffect>)
        ensures
            old(self).settings.has_unique_names() ==> final(self).settings.has_unique_names(),
            string_views(final(self).projects@) == string_views(old(self).projects@).filter(
                |p: Seq<char>| p != name@,
            ),
            final(self).active_project@ == old(self).active_project@,
            final(self).active_comment@ == old(self).active_comment@,
            string_views(final(self).adhoc_projects@) == string_views(old(self).adhoc_projects@),
            final(self).reminder_active == old(self).reminder_active,
            final(self).settings == old(self).settings,
            effect_views(r@) == seq![EffectView::SaveProjects],
    {
        let names = texts_of(self.projects.as_slice());
        let ghost ns = texts(names@);
        let target = chars_of(name);
        let mut kept: Vec<Vec<char>> = Vec::new();
        let mut i: usize = 0;
        let ghost f = |p: Seq<char>| p != name@;
        proof {
            assert(ns.take(0).filter(f) =~= Seq::<Seq<char>>::empty()) by {
                reveal(Seq::filter);
            }
        }
        while i < names.len()
            invariant
                ns == texts(names@),
                f == (|p: Seq<char>| p != name@),
                target@ == name@,
                i <= names.len(),
                texts(kept@) == ns.take(i as int).filter(f),
            decreases names.len() - i,
        {
            proof {
                assert(ns.take(i + 1) =~= ns.take(i as int).push(names@[i as int]@));
                crate::tray_menu::lemma_filter_push(ns.take(i as int), names@[i as int]@, f);
            }
            if !crate::text::chars_equal(names[i].as_slice(), target.as_slice()) {
                let mut copy: Vec<char> = Vec::new();
                crate::text::append_chars(&mut copy, names[i].as_slice());
                let ghost before = kept@;
                kept.push(copy);
                proof {
                    assert(texts(kept@) =~= texts(before).push(names@[i as int]@));
                }
            }
            i += 1;
        }
        proof {
            assert(ns.take(names.len() as int) =~= ns);
        }
        self.projects = strings_of(&kept);
        let mut effects: Vec<SessionEffect> = Vec::new();
        effects.push(SessionEffect::SaveProjects);
        proof {
            assert(effect_views(effects@) =~= seq![EffectView::SaveProjects]);
        }
        effects
    }

    /// Removes a project from the permanent list as the quick panel asks,
    /// its input cleaned (`cleaned`), as `handle_remove` does.
    pub fn remove_project(&mut self, project: &str) -> (r: Vec<SessionEffect>)
        ensures
            old(self).settings.has_unique_names() ==> final(self).settings.has_unique_names(),
            string_views(final(self).projects@) == string_views(old(self).projects@).filter(
                |p: Seq<char>| p != cleaned(project@),
            ),
            final(self).active_project@ == old(self).active_project@,
            final(self).active_comment@ == old(self).active_comment@,
            string_views(final(self).adhoc_projects@) == string_views(old(self).adhoc_projects@),
            final(self).reminder_active == old(self).reminder_active,
            final(self).settings == old(self).settings,
            effect_views(r@) == seq![EffectView::SaveProjects],
    {
        let name = clean_input(project);
        let r = self.handle_remove(name.as_str());
        proof {
            assert((|p: Seq<char>| p != name@) =~= (|p: Seq<char>| p != cleaned(project@)));
        }
        r
    }

    /// Empties the permanent list, which is then to be written.
    pub fn reset_projects(&mut self) -> (r: Vec<SessionEffect>)
        ensures
            old(self).settings.has_unique_names() ==> final(self).settings.has_unique_names(),
            final(self).projects@.len() == 0,
            final(self).active_project@ == old(self).active_project@,
            final(self).active_comment@ == old(self).active_comment@,
            string_views(final(self).adhoc_projects@) == string_views(old(self).adhoc_projects@),
            final(self).reminder_active == old(self).reminder_active,
            final(self).settings == old(self).settings,
            effect_views(r@) == seq![EffectView::SaveProjects],
    {
        self.projects = Vec::new();
        let mut effects: Vec<SessionEffect> = Vec::new();
        effects.push(SessionEffect::SaveProjects);
        proof {
            assert(effect_views(effects@) =~= seq![EffectView::SaveProjects]);
        }
        effects
    }

    /// Handles input from the quick panel: `add_project`, `quick_project`
    /// and `set_comment` as those operations do; any other mode changes
    /// nothing.
    pub fn submit_input(&mut self, mode: &str, value: &str) -> (r: Vec<SessionEffect>)
        ensures
            old(self).settings.has_unique_names() ==> final(self).settings.has_unique_names(),
            mode@ == "add_project"@ ==> adds_project(*final(self), *old(self), value@, effect_views(r@)),
            mode@ == "quick_project"@ ==> switches_quickly(
                *final(self),
                *old(self),
                value@,
                effect_views(r@),
            ),
            mode@ == "set_comment"@ ==> sets_comment(*final(self), *old(self), value@, effect_views(r@)),
            mode@ != "add_project"@ && mode@ != "quick_project"@ && mode@ != "set_comment"@ ==> unchanged(
                *final(self),
                *old(self),
            ) && r@.len() == 0,
    {
        proof {
            reveal_strlit("add_project");
            reveal_strlit("quick_project");
            reveal_strlit("set_comment");
            assert("quick_project"@.len() != "add_project"@.len());
            assert("set_comment"@[0] != "add_project"@[0]);
            assert("set_comment"@[0] != "quick_project"@[0]);
        }
        if text_is(mode, "add_project") {
            self.add_project_value(value)
        } else if text_is(mode, "quick_project") {
            self.quick_project_value(value)
        } else if text_is(mode, "set_comment") {
            self.set_comment_value(value)
        } else {
            Vec::new()
        }
    }
}

} // verus!

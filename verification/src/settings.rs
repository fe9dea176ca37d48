//! The user interface settings that the library reads and keeps: how
//! projects are sorted and grouped, when each was last used, and the quick
//! panel's mode. The quick panel's opacity and window bounds are kept by the
//! application around the library.
use vstd::prelude::*;

use crate::clock::unix_time_micros;
use crate::text::text_is;

verus! {

/// When a project was last used: microseconds since 1970.
#[derive(Debug)]
pub struct RecentUse {
    pub project: String,
    pub used_at: u64,
}

/// The group a project is listed under in the tray menu.
#[derive(Debug)]
pub struct ProjectGroup {
    pub project: String,
    pub group: String,
}

/// The settings the library works with. `project_recent_usage` and
/// `project_groups` map a project to a value: each names a project at most
/// once (`has_unique_names`), which the operations keep.
#[derive(Debug)]
pub struct UiPreferences {
    pub always_on_top: bool,
    pub open_on_start: bool,
    pub project_sort_mode: String,
    pub quickpanel_mode: String,
    pub project_manual_order: Vec<String>,
    pub project_recent_usage: Vec<RecentUse>,
    pub timesheet_rounding_enabled: bool,
    pub group_projects_enabled: bool,
    pub project_groups: Vec<ProjectGroup>,
}

/// The sort modes the settings accept.
pub open spec fn is_sort_mode(v: Seq<char>) -> bool {
    v == "alphabetical"@ || v == "recent"@ || v == "manual"@
}

/// A sort mode as kept: an accepted one as it is, anything else `manual`.
pub open spec fn normalized_sort_mode(v: Seq<char>) -> Seq<char> {
    if is_sort_mode(v) {
        v
    } else {
        "manual"@
    }
}

/// A quick panel mode as kept: `normal` or `compact` as it is, anything
/// else `normal`.
pub open spec fn normalized_quickpanel_mode(v: Seq<char>) -> Seq<char> {
    if v == "normal"@ || v == "compact"@ {
        v
    } else {
        "normal"@
    }
}

/// When a project was last used: the value of its entry (the first one,
/// were a project named twice), 0 when it has none.
pub open spec fn usage_of(uses: Seq<RecentUse>, name: Seq<char>) -> int
    decreases uses.len(),
{
    if uses.len() == 0 {
        0
    } else if uses[0].project@ == name {
        uses[0].used_at as int
    } else {
        usage_of(uses.drop_first(), name)
    }
}

/// The latest use recorded, 0 when none is.
pub open spec fn latest_use(uses: Seq<RecentUse>) -> int
    decreases uses.len(),
{
    if uses.len() == 0 {
        0
    } else {
        let rest = latest_use(uses.drop_last());
        if uses.last().used_at > rest {
            uses.last().used_at as int
        } else {
            rest
        }
    }
}

/// The time to record for a project used now: the clock's reading `now`,
/// or one past the latest use when the clock is not ahead of it (the same
/// latest use when that is the largest time that can be held).
pub open spec fn next_use(now: int, uses: Seq<RecentUse>) -> int {
    let after = if latest_use(uses) < u64::MAX {
        latest_use(uses) + 1
    } else {
        latest_use(uses)
    };
    if now > after {
        now
    } else {
        after
    }
}

/// The group a project is listed under: that of its entry (the first one,
/// were a project named twice), if any.
pub open spec fn group_of(groups: Seq<ProjectGroup>, name: Seq<char>) -> Option<Seq<char>>
    decreases groups.len(),
{
    if groups.len() == 0 {
        None
    } else if groups[0].project@ == name {
        Some(groups[0].group@)
    } else {
        group_of(groups.drop_first(), name)
    }
}

/// No project has two recorded uses: the uses map each project to one time.
pub open spec fn uses_unique(uses: Seq<RecentUse>) -> bool {
    forall|i: int, j: int|
        0 <= i < j < uses.len() ==> (#[trigger] uses[i]).project@ != (#[trigger] uses[j]).project@
}

/// No project has two groups: the groups map each project to one group.
pub open spec fn groups_unique(groups: Seq<ProjectGroup>) -> bool {
    forall|i: int, j: int|
        0 <= i < j < groups.len() ==> (#[trigger] groups[i]).project@ != (#[trigger] groups[j]).project@
}

impl UiPreferences {
    /// The settings' invariant: the recorded uses and the groups are maps,
    /// each project named at most once.
    pub open spec fn has_unique_names(&self) -> bool {
        uses_unique(self.project_recent_usage@) && groups_unique(self.project_groups@)
    }
}

// ---------------------------------------------------------------------------
// Laws
// ---------------------------------------------------------------------------

/// Keeping a sort mode twice keeps it as once.
pub proof fn lemma_normalized_sort_mode_idempotent(v: Seq<char>)
    ensures
        normalized_sort_mode(normalized_sort_mode(v)) == normalized_sort_mode(v),
        is_sort_mode(normalized_sort_mode(v)),
{
}

/// Keeping a quick panel mode twice keeps it as once.
pub proof fn lemma_normalized_quickpanel_mode_idempotent(v: Seq<char>)
    ensures
        normalized_quickpanel_mode(normalized_quickpanel_mode(v)) == normalized_quickpanel_mode(v),
{
}

proof fn lemma_latest_use_bounds(uses: Seq<RecentUse>, i: int)
    requires
        0 <= i < uses.len(),
    ensures
        uses[i].used_at <= latest_use(uses) <= u64::MAX,
    decreases uses.len(),
{
    if i < uses.len() - 1 {
        lemma_latest_use_bounds(uses.drop_last(), i);
        assert(uses.drop_last()[i] == uses[i]);
    } else if uses.len() > 1 {
        lemma_latest_use_bounds(uses.drop_last(), 0);
    } else {
        assert(latest_use(uses.drop_last()) == 0);
    }
}

/// A project used now is recorded as used after every recorded use, unless
/// a use already holds the largest time that can be held.
pub proof fn lemma_next_use_is_latest(now: int, uses: Seq<RecentUse>, i: int)
    requires
        0 <= i < uses.len(),
    ensures
        uses[i].used_at < next_use(now, uses) || next_use(now, uses) == u64::MAX,
{
    lemma_latest_use_bounds(uses, i);
}

/// With each project named once, a project's recorded use is that of its
/// entry, wherever it stands.
pub proof fn lemma_usage_of_unique(uses: Seq<RecentUse>, i: int)
    requires
        uses_unique(uses),
        0 <= i < uses.len(),
    ensures
        usage_of(uses, uses[i].project@) == uses[i].used_at,
    decreases i,
{
    if i > 0 {
        assert(uses[0].project@ != uses[i].project@);
        let rest = uses.drop_first();
        assert(rest[i - 1] == uses[i]);
        assert forall|a: int, b: int| 0 <= a < b < rest.len() implies (#[trigger] rest[a]).project@
            != (#[trigger] rest[b]).project@ by {
            assert(rest[a] == uses[a + 1] && rest[b] == uses[b + 1]);
        }
        lemma_usage_of_unique(rest, i - 1);
    }
}

/// With each project named once, a project's group is that of its entry,
/// wherever it stands.
pub proof fn lemma_group_of_unique(groups: Seq<ProjectGroup>, i: int)
    requires
        groups_unique(groups),
        0 <= i < groups.len(),
    ensures
        group_of(groups, groups[i].project@) == Some(groups[i].group@),
    decreases i,
{
    if i > 0 {
        assert(groups[0].project@ != groups[i].project@);
        let rest = groups.drop_first();
        assert(rest[i - 1] == groups[i]);
        assert forall|a: int, b: int| 0 <= a < b < rest.len() implies (#[trigger] rest[a]).project@
            != (#[trigger] rest[b]).project@ by {
            assert(rest[a] == groups[a + 1] && rest[b] == groups[b + 1]);
        }
        lemma_group_of_unique(rest, i - 1);
    }
}

// ---------------------------------------------------------------------------
// Executable settings
// ---------------------------------------------------------------------------

/// The sort mode of new settings: `manual`.
pub fn default_project_sort_mode() -> (r: String)
    ensures
        r@ == "manual"@,
{
    "manual".to_string()
}

/// The quick panel mode of new settings: `normal`.
pub fn default_quickpanel_mode() -> (r: String)
    ensures
        r@ == "normal"@,
{
    "normal".to_string()
}

/// Whether new settings round timesheets: they do not.
pub fn default_timesheet_rounding_enabled() -> (r: bool)
    ensures
        !r,
{
    false
}

impl Default for UiPreferences {
    /// Settings with every option off, the default modes and no projects
    /// ordered, used or grouped.
    fn default() -> (r: Self)
        ensures
            !r.always_on_top,
            !r.open_on_start,
            r.project_sort_mode@ == "manual"@,
            r.quickpanel_mode@ == "normal"@,
            r.project_manual_order@.len() == 0,
            r.project_recent_usage@.len() == 0,
            !r.timesheet_rounding_enabled,
            !r.group_projects_enabled,
            r.project_groups@.len() == 0,
            r.has_unique_names(),
    {
        UiPreferences {
            always_on_top: false,
            open_on_start: false,
            project_sort_mode: default_project_sort_mode(),
            quickpanel_mode: default_quickpanel_mode(),
            project_manual_order: Vec::new(),
            project_recent_usage: Vec::new(),
            timesheet_rounding_enabled: default_timesheet_rounding_enabled(),
            group_projects_enabled: false,
            project_groups: Vec::new(),
        }
    }
}

/// A sort mode as kept (`normalized_sort_mode`).
pub fn normalize_sort_mode(value: &str) -> (r: String)
    ensures
        r@ == normalized_sort_mode(value@),
{
    if text_is(value, "alphabetical") || text_is(value, "recent") || text_is(value, "manual") {
        value.to_string()
    } else {
        "manual".to_string()
    }
}

/// A quick panel mode as kept (`normalized_quickpanel_mode`).
pub fn normalize_quickpanel_mode(value: &str) -> (r: String)
    ensures
        r@ == normalized_quickpanel_mode(value@),
{
    if text_is(value, "normal") || text_is(value, "compact") {
        value.to_string()
    } else {
        "normal".to_string()
    }
}

/// When a project was last used (`usage_of`).
pub fn usage_of_project(uses: &Vec<RecentUse>, name: &str) -> (r: u64)
    ensures
        r == usage_of(uses@, name@),
{
    let mut i: usize = 0;
    proof {
        assert(uses@.skip(0) =~= uses@);
    }
    while i < uses.len()
        invariant
            i <= uses.len(),
            usage_of(uses@, name@) == usage_of(uses@.skip(i as int), name@),
        decreases uses.len() - i,
    {
        proof {
            assert(uses@.skip(i as int)[0] == uses@[i as int]);
            assert(uses@.skip(i as int).drop_first() =~= uses@.skip(i + 1));
        }
        if text_is(uses[i].project.as_str(), name) {
            return uses[i].used_at;
        }
        i += 1;
    }
    0
}

/// The group a project is listed under (`group_of`).
pub fn group_of_project(groups: &Vec<ProjectGroup>, name: &str) -> (r: Option<String>)
    ensures
        match r {
            Some(g) => group_of(groups@, name@) == Some(g@),
            None => group_of(groups@, name@) is None,
        },
{
    let mut i: usize = 0;
    proof {
        assert(groups@.skip(0) =~= groups@);
    }
    while i < groups.len()
        invariant
            i <= groups.len(),
            group_of(groups@, name@) == group_of(groups@.skip(i as int), name@),
        decreases groups.len() - i,
    {
        proof {
            assert(groups@.skip(i as int)[0] == groups@[i as int]);
            assert(groups@.skip(i as int).drop_first() =~= groups@.skip(i + 1));
        }
        if text_is(groups[i].project.as_str(), name) {
            return Some(groups[i].group.as_str().to_string());
        }
        i += 1;
    }
    None
}

/// The time to record for a project used when the clock reads `now`
/// (`next_use`).
pub fn next_use_after(now: u64, uses: &Vec<RecentUse>) -> (r: u64)
    ensures
        r == next_use(now as int, uses@),
{
    let mut latest: u64 = 0;
    let mut i: usize = 0;
    while i < uses.len()
        invariant
            i <= uses.len(),
            latest == latest_use(uses@.take(i as int)),
        decreases uses.len() - i,
    {
        proof {
            assert(uses@.take(i + 1).drop_last() =~= uses@.take(i as int));
            assert(uses@.take(i + 1).last() == uses@[i as int]);
        }
        if uses[i].used_at > latest {
            latest = uses[i].used_at;
        }
        i += 1;
    }
    proof {
        assert(uses@.take(uses.len() as int) =~= uses@);
    }
    let after = latest.saturating_add(1);
    if now > after {
        now
    } else {
        after
    }
}

/// The time to record for a project used now (`next_use` of the system
/// clock's reading in microseconds): after every recorded use, unless one
/// holds the largest time that can be held.
pub fn next_recent_usage_timestamp(settings: &UiPreferences) -> (r: u64)
    ensures
        exists|now: u64| r == next_use(now as int, settings.project_recent_usage@),
        forall|i: int|
            0 <= i < settings.project_recent_usage@.len() ==> #[trigger] settings.project_recent_usage@[i].used_at
                < r || r == u64::MAX,
{
    let now = unix_time_micros();
    let r = next_use_after(now, &settings.project_recent_usage);
    proof {
        assert forall|i: int| 0 <= i < settings.project_recent_usage@.len() implies #[trigger] settings.project_recent_usage@[i].used_at
            < r || r == u64::MAX by {
            lemma_next_use_is_latest(now as int, settings.project_recent_usage@, i);
        }
    }
    r
}

} // verus!

//! The timesheet's domain values: what to export and the preview it yields.
//! Logged time is held in whole seconds; the user interface shows hours.
use vstd::prelude::*;

verus! {

/// Which days a full timesheet covers.
#[derive(Clone, Copy, Debug, PartialEq, Eq, Structural)]
pub enum TimesheetRange {
    Today,
    Week,
    All,
}

/// Whether the timesheet lists whole weeks or only yesterday and today.
#[derive(Clone, Copy, Debug, PartialEq, Eq, Structural)]
pub enum TimesheetFormat {
    Full,
    Recent,
}

/// What a timesheet export or preview is asked to contain.
#[derive(Clone, Copy, Debug, PartialEq, Eq, Structural)]
pub struct TimesheetOptions {
    pub range: TimesheetRange,
    pub format: TimesheetFormat,
    pub rounding_enabled: bool,
}

impl TimesheetOptions {
    /// A full timesheet over `range`, without rounding.
    pub fn full(range: TimesheetRange) -> (r: Self)
        ensures
            r == (TimesheetOptions {
                range: range,
                format: TimesheetFormat::Full,
                rounding_enabled: false,
            }),
    {
        TimesheetOptions { range, format: TimesheetFormat::Full, rounding_enabled: false }
    }

    /// The two-day overview of yesterday and today, without rounding.
    pub fn recent() -> (r: Self)
        ensures
            r == (TimesheetOptions {
                range: TimesheetRange::Today,
                format: TimesheetFormat::Recent,
                rounding_enabled: false,
            }),
    {
        TimesheetOptions {
            range: TimesheetRange::Today,
            format: TimesheetFormat::Recent,
            rounding_enabled: false,
        }
    }
}

/// One line of a timesheet sheet: a project, one of its comments, or the
/// daily totals. `values` holds the seconds per column, `total` their sum.
#[derive(Clone, Debug)]
pub struct TimesheetPreviewRow {
    pub label: String,
    pub values: Vec<u128>,
    pub total: u128,
    pub is_comment: bool,
    pub is_total: bool,
}

/// One worksheet: an ISO week, or the yesterday-and-today overview.
#[derive(Clone, Debug)]
pub struct TimesheetPreviewSheet {
    pub name: String,
    pub columns: Vec<String>,
    pub rows: Vec<TimesheetPreviewRow>,
}

/// A complete timesheet as the preview window and the export show it.
#[derive(Clone, Debug)]
pub struct TimesheetPreview {
    pub title: String,
    pub generated_at: String,
    pub generated_at_epoch_ms: i64,
    pub sheets: Vec<TimesheetPreviewSheet>,
}

} // verus!

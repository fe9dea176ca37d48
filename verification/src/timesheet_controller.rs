//! Reading what the user interface asks of the timesheet.
use vstd::prelude::*;

use crate::text::text_is;
use crate::timesheet_model::{TimesheetFormat, TimesheetOptions, TimesheetRange};

verus! {

/// What the preview window was opened for: a range and a format, as the
/// user interface names them.
#[derive(Clone, Debug)]
pub struct TimesheetPreviewRequest {
    pub range: String,
    pub format: String,
}

/// What the preview window reads when it starts: the request it was opened
/// for, if any, and whether hours are rounded.
#[derive(Clone, Debug)]
pub struct TimesheetPreviewBootstrap {
    pub request: Option<TimesheetPreviewRequest>,
    pub rounding_enabled: bool,
}

/// The range a name stands for: `today`, `week` or `all`.
pub open spec fn parsed_range(range: Seq<char>) -> Option<TimesheetRange> {
    if range == "today"@ {
        Some(TimesheetRange::Today)
    } else if range == "week"@ {
        Some(TimesheetRange::Week)
    } else if range == "all"@ {
        Some(TimesheetRange::All)
    } else {
        None
    }
}

/// The format a name stands for: `full` or `recent`.
pub open spec fn parsed_format(format: Seq<char>) -> Option<TimesheetFormat> {
    if format == "full"@ {
        Some(TimesheetFormat::Full)
    } else if format == "recent"@ {
        Some(TimesheetFormat::Recent)
    } else {
        None
    }
}

/// The options a range and a format ask for, unrounded; the error for an
/// unknown range, then for an unknown format, then for the two-day overview
/// of any range but today.
pub open spec fn parsed_options(range: Seq<char>, format: Seq<char>) -> Result<
    TimesheetOptions,
    Seq<char>,
> {
    match parsed_range(range) {
        None => Err("Unknown timesheet range."@),
        Some(r) => match parsed_format(format) {
            None => Err("Unknown timesheet format."@),
            Some(f) => if f == TimesheetFormat::Recent && r != TimesheetRange::Today {
                Err("Yesterday + today export only supports the two-day overview."@)
            } else {
                Ok(TimesheetOptions { range: r, format: f, rounding_enabled: false })
            },
        },
    }
}

/// The options a range and a format ask for (`parsed_options`).
pub fn parse_timesheet_options(range: &str, format: &str) -> (r: Result<TimesheetOptions, String>)
    ensures
        match r {
            Ok(o) => parsed_options(range@, format@) == Ok::<TimesheetOptions, Seq<char>>(o),
            Err(e) => parsed_options(range@, format@) == Err::<TimesheetOptions, Seq<char>>(e@),
        },
{
    let r = if text_is(range, "today") {
        TimesheetRange::Today
    } else if text_is(range, "week") {
        TimesheetRange::Week
    } else if text_is(range, "all") {
        TimesheetRange::All
    } else {
        return Err("Unknown timesheet range.".to_string());
    };
    let f = if text_is(format, "full") {
        TimesheetFormat::Full
    } else if text_is(format, "recent") {
        TimesheetFormat::Recent
    } else {
        return Err("Unknown timesheet format.".to_string());
    };
    if f == TimesheetFormat::Recent && r != TimesheetRange::Today {
        return Err("Yesterday + today export only supports the two-day overview.".to_string());
    }
    Ok(TimesheetOptions { range: r, format: f, rounding_enabled: false })
}

/// The title and size in logical pixels (width, height) of the preview
/// window for a format.
pub fn preview_window_layout(format: TimesheetFormat) -> (r: (String, u32, u32))
    ensures
        format == TimesheetFormat::Recent ==> r.0@ == "ProjectLog Timesheet: Yesterday + Today"@
            && r.1 == 860 && r.2 == 600,
        format == TimesheetFormat::Full ==> r.0@ == "ProjectLog Timesheet: Full"@ && r.1 == 1120
            && r.2 == 760,
{
    match format {
        TimesheetFormat::Recent => ("ProjectLog Timesheet: Yesterday + Today".to_string(), 860, 600),
        TimesheetFormat::Full => ("ProjectLog Timesheet: Full".to_string(), 1120, 760),
    }
}

/// The options of an export: those a range and a format ask for
/// (`parsed_options`), rounded when the settings ask for rounding.
pub fn export_options(range: &str, format: &str, rounding_enabled: bool) -> (r: Result<TimesheetOptions, String>)
    ensures
        match r {
            Ok(o) => parsed_options(range@, format@) == Ok::<TimesheetOptions, Seq<char>>(
                TimesheetOptions { rounding_enabled: false, ..o },
            ) && o.rounding_enabled == rounding_enabled,
            Err(e) => parsed_options(range@, format@) == Err::<TimesheetOptions, Seq<char>>(e@),
        },
{
    match parse_timesheet_options(range, format) {
        Ok(o) => Ok(TimesheetOptions { rounding_enabled, ..o }),
        Err(e) => Err(e),
    }
}

/// What opening the preview window asks for: the request it keeps for the
/// window, and the window's title and size (`preview_window_layout` of the
/// format); the error of `parsed_options` when the range and format are not
/// understood.
pub fn preview_window_request(range: &str, format: &str) -> (r: Result<
    (TimesheetPreviewRequest, String, u32, u32),
    String,
>)
    ensures
        match r {
            Ok((request, title, width, height)) => {
                &&& parsed_options(range@, format@) is Ok
                &&& request.range@ == range@
                &&& request.format@ == format@
                &&& (parsed_options(range@, format@)->Ok_0.format == TimesheetFormat::Recent
                    ==> title@ == "ProjectLog Timesheet: Yesterday + Today"@ && width == 860
                    && height == 600)
                &&& (parsed_options(range@, format@)->Ok_0.format == TimesheetFormat::Full
                    ==> title@ == "ProjectLog Timesheet: Full"@ && width == 1120 && height == 760)
            },
            Err(e) => parsed_options(range@, format@) == Err::<TimesheetOptions, Seq<char>>(e@),
        },
{
    let options = match parse_timesheet_options(range, format) {
        Ok(o) => o,
        Err(e) => {
            return Err(e);
        },
    };
    let (title, width, height) = preview_window_layout(options.format);
    let request = TimesheetPreviewRequest { range: range.to_string(), format: format.to_string() };
    Ok((request, title, width, height))
}

} // verus!

//! The spreadsheet export of a timesheet: which file it goes to, which
//! worksheets it has, and what each cell shows. Writing the workbook is left
//! to the caller; hours there are the seconds here divided by 3600.
use vstd::prelude::*;

use crate::clock::{
    calendar_day_ok, clock_epoch_day, clock_error, clock_error_message, local_now, local_today, reading_ok,
    rendered_time, CalendarDay, LocalReading,
};
use crate::text::{chars_of, decimal, push_decimal, push_signed_decimal, signed_decimal, string_of};
use crate::timesheet_model::{
    TimesheetFormat, TimesheetOptions, TimesheetPreview, TimesheetPreviewRow, TimesheetPreviewSheet,
    TimesheetRange,
};
use crate::timesheet_service::{preview, preview_result};

verus! {

/// What a cell holds: text, a time in seconds shown as hours with one
/// decimal, or a dash for no time.
#[derive(Debug)]
pub enum CellContent {
    Text(String),
    Hours(u128),
    Dash,
}

/// How a cell is formatted: as it comes, right-aligned, right-aligned with
/// one decimal, or left-aligned.
#[derive(Clone, Copy, Debug, PartialEq, Eq, Structural)]
pub enum CellStyle {
    Plain,
    Right,
    DecimalRight,
    Left,
}

/// A cell to write: its row and column (counted from 0), content and style.
#[derive(Debug)]
pub struct ExportCell {
    pub row: u32,
    pub column: u16,
    pub content: CellContent,
    pub style: CellStyle,
}

/// A worksheet to write: its name, the width of its first column in
/// characters, whether it is the one shown when the file opens, its cells.
#[derive(Debug)]
pub struct ExportSheet {
    pub name: String,
    pub first_column_width: u32,
    pub active: bool,
    pub cells: Vec<ExportCell>,
}

/// A workbook to write: the file name in the data directory and its
/// worksheets, in order.
#[derive(Debug)]
pub struct ExportPlan {
    pub file_name: String,
    pub sheets: Vec<ExportSheet>,
}

/// What a cell holds, as values.
pub enum CellValue {
    Text(Seq<char>),
    Hours(int),
    Dash,
}

/// A cell as values: row, column, content, style.
pub struct CellData {
    pub row: int,
    pub column: int,
    pub content: CellValue,
    pub style: CellStyle,
}

/// The content of a cell as values.
pub open spec fn content_view(c: CellContent) -> CellValue {
    match c {
        CellContent::Text(s) => CellValue::Text(s@),
        CellContent::Hours(v) => CellValue::Hours(v as int),
        CellContent::Dash => CellValue::Dash,
    }
}

/// A cell as values.
pub open spec fn cell_view(c: ExportCell) -> CellData {
    CellData { row: c.row as int, column: c.column as int, content: content_view(c.content), style: c.style }
}

/// Cells as values.
pub open spec fn cell_views(cs: Seq<ExportCell>) -> Seq<CellData> {
    cs.map_values(|c: ExportCell| cell_view(c))
}

/// A text cell.
pub open spec fn text_cell(row: int, column: int, text: Seq<char>, style: CellStyle) -> CellData {
    CellData { row: row, column: column, content: CellValue::Text(text), style: style }
}

/// The cell for a time: a right-aligned dash for no time, else the hours
/// right-aligned with one decimal.
pub open spec fn hours_cell(row: int, column: int, seconds: int) -> CellData {
    if seconds == 0 {
        CellData { row: row, column: column, content: CellValue::Dash, style: CellStyle::Right }
    } else {
        CellData {
            row: row,
            column: column,
            content: CellValue::Hours(seconds),
            style: CellStyle::DecimalRight,
        }
    }
}

/// Column `n + 1` as a 16-bit column number holds it.
pub open spec fn column_after(n: int) -> int {
    (n + 1) % 65536
}

/// Row `n + 1` as a 32-bit row number holds it.
pub open spec fn row_after(n: int) -> int {
    (n + 1) % 0x1_0000_0000
}

/// The header row: the title, the column names, and `Total`.
pub open spec fn header_cells(title: Seq<char>, columns: Seq<Seq<char>>) -> Seq<CellData> {
    seq![text_cell(0, 0, title, CellStyle::Plain)] + Seq::new(
        columns.len(),
        |i: int| text_cell(0, column_after(i), columns[i], CellStyle::Plain),
    ) + seq![text_cell(0, column_after(columns.len() as int), "Total"@, CellStyle::Plain)]
}

/// The cells of a sheet row written at `row`: the label (left-aligned for a
/// comment), the time of each column, and the row's total.
pub open spec fn row_cells(row: int, r: TimesheetPreviewRow) -> Seq<CellData> {
    seq![
        text_cell(
            row,
            0,
            r.label@,
            if r.is_comment {
                CellStyle::Left
            } else {
                CellStyle::Plain
            },
        ),
    ] + Seq::new(
        r.values@.len(),
        |j: int| hours_cell(row, column_after(j), r.values@[j] as int),
    ) + seq![hours_cell(row, column_after(r.values@.len() as int), r.total as int)]
}

/// The cells of the rows `rows`, the first written at row 1.
pub open spec fn body_cells(rows: Seq<TimesheetPreviewRow>) -> Seq<CellData>
    decreases rows.len(),
{
    if rows.len() == 0 {
        Seq::<CellData>::empty()
    } else {
        body_cells(rows.drop_last()) + row_cells(row_after(rows.len() - 1), rows.last())
    }
}

/// The cells of a sheet: the header row, then a row per sheet row.
pub open spec fn sheet_cells(s: TimesheetPreviewSheet, title: Seq<char>) -> Seq<CellData> {
    header_cells(title, s.columns@.map_values(|c: String| c@)) + body_cells(s.rows@)
}

/// The cells of every row of `rows` are among the cells of the rows.
proof fn lemma_body_cells_hold_rows(rows: Seq<TimesheetPreviewRow>, j: int, m: int)
    requires
        0 <= j < rows.len(),
        0 <= m < row_cells(row_after(j), rows[j]).len(),
    ensures
        exists|k: int|
            0 <= k < body_cells(rows).len() && #[trigger] body_cells(rows)[k] == row_cells(
                row_after(j),
                rows[j],
            )[m],
    decreases rows.len(),
{
    let b = body_cells(rows.drop_last());
    let last = row_cells(row_after(rows.len() - 1), rows.last());
    if j < rows.len() - 1 {
        assert(rows.drop_last()[j] == rows[j]);
        lemma_body_cells_hold_rows(rows.drop_last(), j, m);
        let k = choose|k: int|
            0 <= k < b.len() && #[trigger] b[k] == row_cells(row_after(j), rows.drop_last()[j])[m];
        assert(body_cells(rows)[k] == b[k]);
    } else {
        assert(body_cells(rows)[b.len() + m] == last[m]);
    }
}

/// Each exported row shows its total after its day columns: for a sheet
/// whose rows carry the sum of their day values as their total (as every
/// row of a preview does), the cells of row `j` (written at row `j + 1`)
/// hold, in the column after its day columns, that sum in hours, or a dash
/// when it is 0.
pub proof fn lemma_exported_rows_show_their_totals(s: TimesheetPreviewSheet, title: Seq<char>, j: int)
    requires
        0 <= j < s.rows.len(),
        j + 1 < 0x1_0000_0000,
        s.rows@[j].values.len() + 1 < 65536,
        s.rows@[j].total == crate::rounding::seq_sum(crate::rounding::as_ints(s.rows@[j].values@)),
    ensures
        ({
            let sum = crate::rounding::seq_sum(crate::rounding::as_ints(s.rows@[j].values@));
            let n = s.rows@[j].values.len() as int;
            exists|k: int|
                0 <= k < sheet_cells(s, title).len() && #[trigger] sheet_cells(s, title)[k] == (CellData {
                    row: j + 1,
                    column: n + 1,
                    content: if sum == 0 {
                        CellValue::Dash
                    } else {
                        CellValue::Hours(sum)
                    },
                    style: if sum == 0 {
                        CellStyle::Right
                    } else {
                        CellStyle::DecimalRight
                    },
                })
        }),
{
    let r = s.rows@[j];
    let n = r.values.len() as int;
    let cells = row_cells(row_after(j), r);
    assert(cells[n + 1] == hours_cell(row_after(j), column_after(n), r.total as int));
    lemma_body_cells_hold_rows(s.rows@, j, n + 1);
    let h = header_cells(title, s.columns@.map_values(|c: String| c@));
    let k = choose|k: int| 0 <= k < body_cells(s.rows@).len() && #[trigger] body_cells(s.rows@)[k] == cells[n + 1];
    assert(sheet_cells(s, title)[h.len() + k] == cells[n + 1]);
}

/// Each exported row shows its day values in its day columns: the cells of
/// row `j` (written at row `j + 1`) hold, in column `c + 1`, the seconds of
/// day column `c` in hours, or a dash when there are none.
pub proof fn lemma_exported_rows_show_their_days(s: TimesheetPreviewSheet, title: Seq<char>, j: int, c: int)
    requires
        0 <= j < s.rows.len(),
        j + 1 < 0x1_0000_0000,
        0 <= c < s.rows@[j].values.len(),
        s.rows@[j].values.len() + 1 < 65536,
    ensures
        ({
            let v = s.rows@[j].values@[c] as int;
            exists|k: int|
                0 <= k < sheet_cells(s, title).len() && #[trigger] sheet_cells(s, title)[k] == (CellData {
                    row: j + 1,
                    column: c + 1,
                    content: if v == 0 {
                        CellValue::Dash
                    } else {
                        CellValue::Hours(v)
                    },
                    style: if v == 0 {
                        CellStyle::Right
                    } else {
                        CellStyle::DecimalRight
                    },
                })
        }),
{
    let r = s.rows@[j];
    let cells = row_cells(row_after(j), r);
    assert(cells[c + 1] == hours_cell(row_after(j), column_after(c), r.values@[c] as int));
    lemma_body_cells_hold_rows(s.rows@, j, c + 1);
    let h = header_cells(title, s.columns@.map_values(|x: String| x@));
    let k = choose|k: int| 0 <= k < body_cells(s.rows@).len() && #[trigger] body_cells(s.rows@)[k] == cells[c + 1];
    assert(sheet_cells(s, title)[h.len() + k] == cells[c + 1]);
}

/// The file a timesheet is saved to.
pub open spec fn export_file_name(o: TimesheetOptions) -> Seq<char> {
    match o.format {
        TimesheetFormat::Recent => "timesheet-yesterday-today.xlsx"@,
        TimesheetFormat::Full => match o.range {
            TimesheetRange::Today => "timesheet-today.xlsx"@,
            TimesheetRange::Week => "timesheet-week.xlsx"@,
            TimesheetRange::All => "timesheet.xlsx"@,
        },
    }
}

/// The file a timesheet is saved to when its usual file cannot be written:
/// the usual name with the time `stamp` before the extension.
pub open spec fn fallback_file_name_for(o: TimesheetOptions, stamp: Seq<char>) -> Seq<char> {
    let base = match o.format {
        TimesheetFormat::Recent => "timesheet-yesterday-today-"@,
        TimesheetFormat::Full => match o.range {
            TimesheetRange::Today => "timesheet-today-"@,
            TimesheetRange::Week => "timesheet-week-"@,
            TimesheetRange::All => "timesheet-"@,
        },
    };
    base + stamp + ".xlsx"@
}

/// The sheet shown when the file opens: the one named `current_week`, else
/// the last (the first when there are none).
pub open spec fn active_sheet(sheets: Seq<TimesheetPreviewSheet>, current_week: Seq<char>) -> int {
    if exists|i: int| 0 <= i < sheets.len() && #[trigger] sheets[i].name@ == current_week {
        choose|i: int|
            0 <= i < sheets.len() && #[trigger] sheets[i].name@ == current_week && forall|k: int|
                0 <= k < i ==> sheets[k].name@ != current_week
    } else if sheets.len() > 0 {
        sheets.len() - 1
    } else {
        0
    }
}

/// The title of a sheet: `Yesterday + Today` for the two-day overview, else
/// the sheet's name.
pub open spec fn sheet_title(o: TimesheetOptions, s: TimesheetPreviewSheet) -> Seq<char> {
    if o.format == TimesheetFormat::Recent {
        "Yesterday + Today"@
    } else {
        s.name@
    }
}

/// `plan` writes `p` to the file of the options, one worksheet per sheet in
/// order, each with its title, first-column width (16 for the two-day
/// overview, else 42) and cells, the sheet of `current_week` shown first.
pub open spec fn plans_export(
    plan: ExportPlan,
    p: TimesheetPreview,
    o: TimesheetOptions,
    current_week: Seq<char>,
) -> bool {
    &&& plan.file_name@ == export_file_name(o)
    &&& plan.sheets.len() == p.sheets.len()
    &&& forall|i: int|
        0 <= i < p.sheets.len() ==> {
            let s = #[trigger] plan.sheets@[i];
            &&& s.name@ == p.sheets@[i].name@
            &&& s.first_column_width == if o.format == TimesheetFormat::Recent {
                16u32
            } else {
                42u32
            }
            &&& s.active == (i == active_sheet(p.sheets@, current_week))
            &&& cell_views(s.cells@) == sheet_cells(p.sheets@[i], sheet_title(o, p.sheets@[i]))
        }
}

// ---------------------------------------------------------------------------
// Executable export
// ---------------------------------------------------------------------------

/// The cell for a time (`hours_cell`).
pub fn write_hours_cell(row: u32, column: u16, seconds: u128) -> (r: ExportCell)
    ensures
        cell_view(r) == hours_cell(row as int, column as int, seconds as int),
{
    if seconds == 0 {
        ExportCell { row, column, content: CellContent::Dash, style: CellStyle::Right }
    } else {
        ExportCell { row, column, content: CellContent::Hours(seconds), style: CellStyle::DecimalRight }
    }
}

/// Column `n + 1` as a 16-bit column number (`column_after`).
fn column_after_of(n: usize) -> (r: u16)
    ensures
        r as int == column_after(n as int),
{
    ((n as u128 + 1) % 65536) as u16
}

/// Row `n + 1` as a 32-bit row number (`row_after`).
fn row_after_of(n: usize) -> (r: u32)
    ensures
        r as int == row_after(n as int),
{
    ((n as u128 + 1) % 0x1_0000_0000) as u32
}

/// A copy of a string.
fn copy_string(s: &String) -> (r: String)
    ensures
        r@ == s@,
{
    s.as_str().to_string()
}

/// The cells of a sheet (`sheet_cells`).
pub fn write_sheet(sheet: &TimesheetPreviewSheet, title: &str) -> (r: Vec<ExportCell>)
    ensures
        cell_views(r@) == sheet_cells(*sheet, title@),
{
    let ghost columns = sheet.columns@.map_values(|c: String| c@);
    let mut cells: Vec<ExportCell> = Vec::new();
    cells.push(ExportCell { row: 0, column: 0, content: CellContent::Text(title.to_string()), style: CellStyle::Plain });
    let mut i: usize = 0;
    while i < sheet.columns.len()
        invariant
            columns == sheet.columns@.map_values(|c: String| c@),
            i <= sheet.columns.len(),
            cell_views(cells@) == seq![text_cell(0, 0, title@, CellStyle::Plain)] + Seq::new(
                i as nat,
                |k: int| text_cell(0, column_after(k), columns[k], CellStyle::Plain),
            ),
        decreases sheet.columns.len() - i,
    {
        let ghost before = cell_views(cells@);
        let c = ExportCell {
            row: 0,
            column: column_after_of(i),
            content: CellContent::Text(copy_string(&sheet.columns[i])),
            style: CellStyle::Plain,
        };
        cells.push(c);
        proof {
            assert(cell_views(cells@) =~= before.push(cell_view(c)));
            assert(columns[i as int] == sheet.columns@[i as int]@);
            assert(seq![text_cell(0, 0, title@, CellStyle::Plain)] + Seq::new(
                (i + 1) as nat,
                |k: int| text_cell(0, column_after(k), columns[k], CellStyle::Plain),
            ) =~= before.push(cell_view(c)));
        }
        i += 1;
    }
    let ghost before_total = cell_views(cells@);
    let total_cell = ExportCell {
        row: 0,
        column: column_after_of(sheet.columns.len()),
        content: CellContent::Text("Total".to_string()),
        style: CellStyle::Plain,
    };
    cells.push(total_cell);
    proof {
        assert(cell_views(cells@) =~= before_total.push(cell_view(total_cell)));
        assert(cell_views(cells@) =~= header_cells(title@, columns));
        assert(sheet.rows@.take(0) =~= Seq::<TimesheetPreviewRow>::empty());
    }
    let ghost header = cell_views(cells@);
    let mut index: usize = 0;
    while index < sheet.rows.len()
        invariant
            header == header_cells(title@, columns),
            index <= sheet.rows.len(),
            cell_views(cells@) == header + body_cells(sheet.rows@.take(index as int)),
        decreases sheet.rows.len() - index,
    {
        let row = &sheet.rows[index];
        let row_index = row_after_of(index);
        let ghost start = cell_views(cells@);
        let label_style = if row.is_comment {
            CellStyle::Left
        } else {
            CellStyle::Plain
        };
        let label_cell = ExportCell {
            row: row_index,
            column: 0,
            content: CellContent::Text(copy_string(&row.label)),
            style: label_style,
        };
        cells.push(label_cell);
        let mut j: usize = 0;
        proof {
            assert(cell_views(cells@) =~= start + seq![cell_view(label_cell)] + Seq::new(
                0,
                |k: int| hours_cell(row_index as int, column_after(k), row.values@[k] as int),
            ));
        }
        while j < row.values.len()
            invariant
                j <= row.values.len(),
                cell_views(cells@) == start + seq![cell_view(label_cell)] + Seq::new(
                    j as nat,
                    |k: int| hours_cell(row_index as int, column_after(k), row.values@[k] as int),
                ),
            decreases row.values.len() - j,
        {
            let ghost before = cell_views(cells@);
            let c = write_hours_cell(row_index, column_after_of(j), row.values[j]);
            cells.push(c);
            proof {
                assert(cell_views(cells@) =~= before.push(cell_view(c)));
                assert(start + seq![cell_view(label_cell)] + Seq::new(
                    (j + 1) as nat,
                    |k: int| hours_cell(row_index as int, column_after(k), row.values@[k] as int),
                ) =~= before.push(cell_view(c)));
            }
            j += 1;
        }
        let ghost before_row_total = cell_views(cells@);
        let t = write_hours_cell(row_index, column_after_of(row.values.len()), row.total);
        cells.push(t);
        proof {
            assert(cell_views(cells@) =~= before_row_total.push(cell_view(t)));
            assert(sheet.rows@.take(index + 1).drop_last() =~= sheet.rows@.take(index as int));
            assert(sheet.rows@.take(index + 1).last() == *row);
            assert(body_cells(sheet.rows@.take(index + 1)) == body_cells(sheet.rows@.take(index as int))
                + row_cells(row_after(index as int), *row));
            assert(cell_views(cells@) =~= header + body_cells(sheet.rows@.take(index + 1)));
        }
        index += 1;
    }
    proof {
        assert(sheet.rows@.take(sheet.rows.len() as int) =~= sheet.rows@);
    }
    cells
}

/// The file a timesheet is saved to (`export_file_name`).
pub fn export_file_name_of(options: TimesheetOptions) -> (r: String)
    ensures
        r@ == export_file_name(options),
{
    match options.format {
        TimesheetFormat::Recent => "timesheet-yesterday-today.xlsx".to_string(),
        TimesheetFormat::Full => match options.range {
            TimesheetRange::Today => "timesheet-today.xlsx".to_string(),
            TimesheetRange::Week => "timesheet-week.xlsx".to_string(),
            TimesheetRange::All => "timesheet.xlsx".to_string(),
        },
    }
}

/// The fallback file for the time `stamp` (`fallback_file_name_for`).
pub fn fallback_file_name_at(options: TimesheetOptions, stamp: &str) -> (r: String)
    ensures
        r@ == fallback_file_name_for(options, stamp@),
{
    let base = match options.format {
        TimesheetFormat::Recent => "timesheet-yesterday-today-",
        TimesheetFormat::Full => match options.range {
            TimesheetRange::Today => "timesheet-today-",
            TimesheetRange::Week => "timesheet-week-",
            TimesheetRange::All => "timesheet-",
        },
    };
    let mut cs = chars_of(base);
    crate::text::append_chars(&mut cs, chars_of(stamp).as_slice());
    crate::text::append_chars(&mut cs, chars_of(".xlsx").as_slice());
    proof {
        assert(cs@ =~= fallback_file_name_for(options, stamp@));
    }
    string_of(cs.as_slice())
}

/// The format of the time in a fallback file's name.
pub open spec fn fallback_time_format() -> Seq<char> {
    "%Y%m%d-%H%M%S"@
}

/// The fallback file for now (`fallback_file_name_for` of the local time
/// written in `fallback_time_format`); `None` when the clock cannot be read.
/// The clock decides the reading.
pub fn fallback_file_name(options: TimesheetOptions) -> (r: Option<String>)
    ensures
        r matches Some(name) ==> exists|t: LocalReading|
            reading_ok(t) && name@ == #[trigger] fallback_file_name_for(
                options,
                rendered_time(fallback_time_format(), t),
            ),
{
    let (stamp, _, t) = match local_now("%Y%m%d-%H%M%S") {
        Some(n) => n,
        None => {
            return None;
        },
    };
    let name = fallback_file_name_at(options, stamp.as_str());
    proof {
        assert(name@ == fallback_file_name_for(options, rendered_time(fallback_time_format(), t)));
    }
    Some(name)
}

/// The message when neither the file nor its fallback could be saved.
pub fn save_failure_message(output_file: &str, fallback_file: &str, fallback_error: &str, error: &str) -> (r: String)
    ensures
        r@ == "Failed to save "@ + output_file@ + " (it may be open in Excel). Also failed to save fallback file "@
            + fallback_file@ + ": "@ + fallback_error@ + ". Original error: "@ + error@,
{
    let mut cs = chars_of("Failed to save ");
    crate::text::append_chars(&mut cs, chars_of(output_file).as_slice());
    crate::text::append_chars(&mut cs, chars_of(" (it may be open in Excel). Also failed to save fallback file ").as_slice());
    crate::text::append_chars(&mut cs, chars_of(fallback_file).as_slice());
    crate::text::append_chars(&mut cs, chars_of(": ").as_slice());
    crate::text::append_chars(&mut cs, chars_of(fallback_error).as_slice());
    crate::text::append_chars(&mut cs, chars_of(". Original error: ").as_slice());
    crate::text::append_chars(&mut cs, chars_of(error).as_slice());
    string_of(cs.as_slice())
}

/// The position of the sheet shown first (`active_sheet`).
fn active_sheet_index(sheets: &Vec<TimesheetPreviewSheet>, current_week: &str) -> (r: usize)
    ensures
        r == active_sheet(sheets@, current_week@),
{
    let mut i: usize = 0;
    while i < sheets.len()
        invariant
            i <= sheets.len(),
            forall|k: int| 0 <= k < i ==> sheets@[k].name@ != current_week@,
        decreases sheets.len() - i,
    {
        if crate::text::text_is(sheets[i].name.as_str(), current_week) {
            proof {
                assert(sheets@[i as int].name@ == current_week@);
                let c = choose|c: int|
                    0 <= c < sheets@.len() && #[trigger] sheets@[c].name@ == current_week@ && forall|k: int|
                        0 <= k < c ==> sheets@[k].name@ != current_week@;
                assert(c == i);
            }
            return i;
        }
        i += 1;
    }
    if sheets.len() > 0 {
        sheets.len() - 1
    } else {
        0
    }
}

/// The workbook for a preview (`plans_export`), the sheet named
/// `current_week` shown first.
pub fn export_plan(preview: &TimesheetPreview, options: TimesheetOptions, current_week: &str) -> (r: ExportPlan)
    ensures
        plans_export(r, *preview, options, current_week@),
{
    let active = active_sheet_index(&preview.sheets, current_week);
    let recent = options.format == TimesheetFormat::Recent;
    let width: u32 = if recent {
        16
    } else {
        42
    };
    let mut sheets: Vec<ExportSheet> = Vec::new();
    let mut i: usize = 0;
    while i < preview.sheets.len()
        invariant
            active == active_sheet(preview.sheets@, current_week@),
            recent == (options.format == TimesheetFormat::Recent),
            width == if recent {
                16u32
            } else {
                42u32
            },
            i <= preview.sheets.len(),
            sheets.len() == i,
            forall|k: int|
                0 <= k < i ==> {
                    let s = #[trigger] sheets@[k];
                    &&& s.name@ == preview.sheets@[k].name@
                    &&& s.first_column_width == width
                    &&& s.active == (k == active)
                    &&& cell_views(s.cells@) == sheet_cells(
                        preview.sheets@[k],
                        sheet_title(options, preview.sheets@[k]),
                    )
                },
        decreases preview.sheets.len() - i,
    {
        let sheet = &preview.sheets[i];
        let title = if recent {
            "Yesterday + Today".to_string()
        } else {
            copy_string(&sheet.name)
        };
        let cells = write_sheet(sheet, title.as_str());
        let s = ExportSheet { name: copy_string(&sheet.name), first_column_width: width, active: i == active, cells };
        let ghost before = sheets@;
        sheets.push(s);
        proof {
            assert forall|k: int| 0 <= k < i + 1 implies {
                let s2 = #[trigger] sheets@[k];
                &&& s2.name@ == preview.sheets@[k].name@
                &&& s2.first_column_width == width
                &&& s2.active == (k == active)
                &&& cell_views(s2.cells@) == sheet_cells(
                    preview.sheets@[k],
                    sheet_title(options, preview.sheets@[k]),
                )
            } by {
                if k < i {
                    assert(sheets@[k] == before[k]);
                }
            }
        }
        i += 1;
    }
    ExportPlan { file_name: export_file_name_of(options), sheets }
}

/// The name of the sheet of a day's ISO week: its year, a dash and its week
/// number (`week_name_of`).
pub fn week_name_for(day: CalendarDay) -> (r: String)
    ensures
        r@ == crate::timesheet_service::week_name_of(day.iso_year as int, day.iso_week as nat),
{
    let mut cs: Vec<char> = Vec::new();
    push_signed_decimal(&mut cs, day.iso_year);
    cs.push('-');
    push_decimal(&mut cs, day.iso_week as u64);
    proof {
        assert(cs@ =~= crate::timesheet_service::week_name_of(day.iso_year as int, day.iso_week as nat));
    }
    string_of(cs.as_slice())
}

/// A day the local clock can give: in chrono's ranges, from 1969-12-31 on.
pub open spec fn clock_day(d: CalendarDay) -> bool {
    calendar_day_ok(d) && clock_epoch_day() <= d.day
}

/// The name of the sheet of the current ISO week (`week_name_for` of the
/// local clock's day); `None` when the clock cannot be read. The clock
/// decides the day.
pub fn current_week_name() -> (r: Option<String>)
    ensures
        r matches Some(name) ==> exists|d: CalendarDay|
            clock_day(d) && name@ == #[trigger] crate::timesheet_service::week_name_of(
                d.iso_year as int,
                d.iso_week as nat,
            ),
{
    let today = match local_today() {
        Some(d) => d,
        None => {
            return None;
        },
    };
    let name = week_name_for(today);
    proof {
        assert(clock_day(today));
    }
    Some(name)
}

/// `r` is the workbook for a preview of the log `content`
/// (`preview_result`), the sheet of the ISO week of a day the clock can give
/// shown first (`clock_day`); or
/// that preview's error, or the error that the clock could not be read.
pub open spec fn export_outcome(content: Seq<char>, o: TimesheetOptions, r: Result<ExportPlan, String>) -> bool {
    match r {
        Ok(plan) => exists|p: TimesheetPreview, d: CalendarDay|
            clock_day(d) && preview_result(content, o, Ok::<TimesheetPreview, String>(p))
                && #[trigger] plans_export(
                plan,
                p,
                o,
                crate::timesheet_service::week_name_of(d.iso_year as int, d.iso_week as nat),
            ),
        Err(e) => e@ == clock_error_message() || exists|e2: String|
            e2@ == e@ && #[trigger] preview_result(content, o, Err::<TimesheetPreview, String>(e2)),
    }
}

/// The workbook for the log `content` (`plans_export` of the `preview`),
/// the sheet of the current week shown first; the preview's error when
/// there is no timesheet, and the error of `clock_error_message` when the
/// clock cannot be read.
pub fn generate(content: &str, options: TimesheetOptions) -> (r: Result<ExportPlan, String>)
    ensures
        export_outcome(content@, options, r),
{
    let result = preview(content, options);
    match result {
        Ok(p) => {
            proof {
                assert(preview_result(content@, options, Ok::<TimesheetPreview, String>(p)));
            }
            let week = match current_week_name() {
                Some(w) => w,
                None => {
                    return Err(clock_error());
                },
            };
            let ghost d = choose|d: CalendarDay|
                clock_day(d) && week@ == crate::timesheet_service::week_name_of(
                    d.iso_year as int,
                    d.iso_week as nat,
                );
            let ghost year = d.iso_year as int;
            let ghost wk = d.iso_week as nat;
            let plan = export_plan(&p, options, week.as_str());
            proof {
                assert(plans_export(plan, p, options, crate::timesheet_service::week_name_of(year, wk)));
            }
            let r = Ok(plan);
            proof {
                assert(r->Ok_0 == plan);
                assert(clock_day(d) && preview_result(content@, options, Ok::<TimesheetPreview, String>(p))
                    && plans_export(r->Ok_0, p, options, crate::timesheet_service::week_name_of(year, wk)));
                assert(export_outcome(content@, options, r));
            }
            r
        },
        Err(e) => {
            proof {
                assert(preview_result(content@, options, Err::<TimesheetPreview, String>(e)));
            }
            Err(e)
        },
    }
}

} // verus!

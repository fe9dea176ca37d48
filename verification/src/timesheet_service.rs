//! The timesheet preview: the booked table shown as sheets of rows, one per
//! ISO week (or one for yesterday and today), each closed by a totals row.
use vstd::prelude::*;

use crate::rounding::{
    as_ints, cell_bound, column, first_total, is_project_row, lemma_first_total_shape,
    lemma_project_indices_shape, lemma_sum_le_bound, project_indices, rows_roundable, seq_sum,
    sum_values, copy_values, value_count,
};
use crate::booking::{
    book_entries, cell, column_count, filled_keys, interval_count, is_timesheet_table,
    lemma_table_empty_iff_nothing_booked, lemma_table_values_bounded, lemma_timesheet_table_ignores_rounding, slot,
    spent, TimesheetDays,
};
use crate::clock::{
    calendar_day, calendar_day_for, calendar_day_ok, clock_epoch_day, clock_error, clock_error_message, local_now,
    local_today, reading_ok, rendered_time, stamp_ok, LocalReading,
};
use crate::rounding::{
    apply_rounding_to_preview, is_rounded_preview, is_rounded_rows, lemma_element_le_sum,
    lemma_rounded_rows_alike, lemma_sum_nonneg, preview_roundable, rows_alike,
};
use crate::text::{append_chars, decimal, string_views, push_decimal, push_signed_decimal, signed_decimal, string_of};
use crate::time_log::{
    entries_since, entry_views, is_time_ordered, lemma_time_sorted, parse_log, parsed_log, raw_entries,
    LogEntry,
};
use crate::text::text_lines;
use crate::timesheet_model::{
    TimesheetFormat, TimesheetOptions, TimesheetPreview, TimesheetPreviewRow, TimesheetPreviewSheet,
};
use crate::timesheet_table::{lemma_table_unique, row_weight, rows_of, table_mass, RowKey, TableRow, TableRowData};

verus! {

/// The label of a table row: the project, or its comment set in under it.
pub open spec fn row_label(k: RowKey) -> Seq<char> {
    if k.comment.len() == 0 {
        k.project
    } else {
        seq![' ', ' ', '-', ' '] + k.comment
    }
}

/// `r` shows table row `d`: its label, its values and their sum.
pub open spec fn row_shows(r: TimesheetPreviewRow, d: TableRowData) -> bool {
    &&& r.label@ == row_label(d.key)
    &&& r.values@ == d.values
    &&& r.total == seq_sum(as_ints(d.values))
    &&& r.is_comment == (d.key.comment.len() > 0)
    &&& !r.is_total
}

/// The seconds the project rows of `g` hold in column `c`.
pub open spec fn column_total(g: Seq<TableRowData>, c: int) -> int
    decreases g.len(),
{
    if g.len() == 0 {
        0
    } else {
        column_total(g.drop_last(), c) + if g.last().key.comment.len() == 0 {
            g.last().values[c] as int
        } else {
            0int
        }
    }
}

/// `r` is the totals row of the rows `g` over `ncols` day columns.
pub open spec fn total_shows(r: TimesheetPreviewRow, g: Seq<TableRowData>, ncols: int) -> bool {
    &&& r.label@ == "Total"@
    &&& r.is_total
    &&& !r.is_comment
    &&& r.values.len() == ncols
    &&& forall|c: int| 0 <= c < ncols ==> #[trigger] r.values@[c] == column_total(g, c)
    &&& r.total == seq_sum(as_ints(r.values@))
}

/// `rows` shows the table rows `g` in order, then their totals row.
pub open spec fn rows_show(rows: Seq<TimesheetPreviewRow>, g: Seq<TableRowData>, ncols: int) -> bool {
    &&& rows.len() == g.len() + 1
    &&& forall|j: int| 0 <= j < g.len() ==> row_shows(#[trigger] rows[j], g[j])
    &&& total_shows(rows[g.len() as int], g, ncols)
}

// ---------------------------------------------------------------------------
// Lemmas
// ---------------------------------------------------------------------------

proof fn lemma_column_push(rows: Seq<TimesheetPreviewRow>, x: TimesheetPreviewRow, d: int)
    ensures
        column(rows.push(x), d) == if is_project_row(x) {
            column(rows, d).push(x.values@[d] as int)
        } else {
            column(rows, d)
        },
{
    let r2 = rows.push(x);
    assert(r2.drop_last() =~= rows);
    lemma_project_indices_shape(rows);
    let p = project_indices(rows);
    assert forall|k: int| 0 <= k < p.len() implies r2[p[k]] == rows[p[k]] by {}
    if is_project_row(x) {
        assert(column(r2, d) =~= column(rows, d).push(x.values@[d] as int));
    } else {
        assert(column(r2, d) =~= column(rows, d));
    }
}

proof fn lemma_first_total_none(rows: Seq<TimesheetPreviewRow>)
    requires
        forall|i: int| 0 <= i < rows.len() ==> !(#[trigger] rows[i]).is_total,
    ensures
        first_total(rows) is None,
{
    lemma_first_total_shape(rows);
}

proof fn lemma_column_total_prefix(g: Seq<TableRowData>, q: int, c: int)
    requires
        0 <= q <= g.len(),
    ensures
        0 <= column_total(g.take(q), c) <= column_total(g, c),
    decreases g.len(),
{
    if q == g.len() {
        assert(g.take(q) =~= g);
        lemma_column_total_nonneg(g, c);
    } else {
        assert(g.take(q) =~= g.drop_last().take(q));
        lemma_column_total_prefix(g.drop_last(), q, c);
    }
}

proof fn lemma_column_total_nonneg(g: Seq<TableRowData>, c: int)
    ensures
        column_total(g, c) >= 0,
    decreases g.len(),
{
    if g.len() > 0 {
        lemma_column_total_nonneg(g.drop_last(), c);
    }
}

// ---------------------------------------------------------------------------
// Executable rows
// ---------------------------------------------------------------------------

/// The label of a row (`row_label`).
fn label_of(row: &TableRow) -> (r: String)
    ensures
        r@ == row_label(row@.key),
{
    if row.comment.len() == 0 {
        string_of(row.project.as_slice())
    } else {
        let mut cs: Vec<char> = Vec::new();
        cs.push(' ');
        cs.push(' ');
        cs.push('-');
        cs.push(' ');
        append_chars(&mut cs, row.comment.as_slice());
        proof {
            assert(cs@ =~= seq![' ', ' ', '-', ' '] + row.comment@);
        }
        string_of(cs.as_slice())
    }
}

/// The sheet rows for the table rows `start..end`: one row per table row in
/// order, then the totals row holding the column sums of the project rows.
pub fn build_rows(table: &Vec<TableRow>, start: usize, end: usize, ncols: usize) -> (r: Vec<
    TimesheetPreviewRow,
>)
    requires
        start <= end <= table.len(),
        1 <= ncols <= 7,
        forall|j: int|
            start <= j < end ==> (#[trigger] table@[j]).values.len() == ncols && forall|c: int|
                0 <= c < ncols ==> #[trigger] table@[j].values@[c] < cell_bound(),
        forall|c: int|
            0 <= c < ncols ==> #[trigger] column_total(
                rows_of(table@).subrange(start as int, end as int),
                c,
            ) < cell_bound(),
    ensures
        rows_show(r@, rows_of(table@).subrange(start as int, end as int), ncols as int),
        rows_roundable(r@),
{
    let ghost g = rows_of(table@).subrange(start as int, end as int);
    let mut out: Vec<TimesheetPreviewRow> = Vec::new();
    let mut totals: Vec<u128> = Vec::new();
    let mut c: usize = 0;
    while c < ncols
        invariant
            c <= ncols,
            totals.len() == c,
            forall|e: int| 0 <= e < c ==> #[trigger] totals@[e] == 0,
        decreases ncols - c,
    {
        totals.push(0);
        c += 1;
    }
    let mut j: usize = start;
    proof {
        assert(g.take(0) =~= Seq::<TableRowData>::empty());
        assert forall|e: int| 0 <= e < ncols implies seq_sum(#[trigger] column(out@, e)) == 0 by {
            assert(column(out@, e) =~= Seq::<int>::empty());
        }
    }
    while j < end
        invariant
            g == rows_of(table@).subrange(start as int, end as int),
            start <= j <= end <= table.len(),
            1 <= ncols <= 7,
            forall|q: int|
                start <= q < end ==> (#[trigger] table@[q]).values.len() == ncols && forall|e: int|
                    0 <= e < ncols ==> #[trigger] table@[q].values@[e] < cell_bound(),
            forall|e: int| 0 <= e < ncols ==> #[trigger] column_total(g, e) < cell_bound(),
            out.len() == j - start,
            forall|q: int| 0 <= q < out.len() ==> row_shows(#[trigger] out@[q], g[q]),
            totals.len() == ncols,
            forall|e: int|
                0 <= e < ncols ==> #[trigger] totals@[e] == column_total(g.take(j - start), e),
            forall|e: int|
                0 <= e < ncols ==> seq_sum(#[trigger] column(out@, e)) == column_total(
                    g.take(j - start),
                    e,
                ),
        decreases end - j,
    {
        let row = &table[j];
        let ghost q = j - start;
        proof {
            assert(g[q] == table@[j as int]@);
            assert(g.take(q + 1).drop_last() =~= g.take(q));
            assert(g.take(q + 1).last() == g[q]);
        }
        let values = copy_values(&row.values);
        proof {
            let v = as_ints(values@);
            assert forall|k: int| 0 <= k < v.len() implies 0 <= #[trigger] v[k] <= cell_bound() by {
                assert(v[k] == table@[j as int].values@[k]);
            }
            lemma_sum_le_bound(v, cell_bound());
        }
        let total = sum_values(values.as_slice());
        let is_comment = row.comment.len() > 0;
        let label = label_of(row);
        let ghost old_out = out@;
        let new_row = TimesheetPreviewRow { label, values, total, is_comment, is_total: false };
        if !is_comment {
            let mut e: usize = 0;
            while e < ncols
                invariant
                    g == rows_of(table@).subrange(start as int, end as int),
                    start <= j < end <= table.len(),
                    q == j - start,
                    g[q] == table@[j as int]@,
                    g[q].key.comment.len() == 0,
                    0 <= q < g.len(),
                    g.take(q + 1).drop_last() == g.take(q),
                    g.take(q + 1).last() == g[q],
                    ncols <= 7,
                    table@[j as int].values.len() == ncols,
                    forall|e2: int| 0 <= e2 < ncols ==> #[trigger] column_total(g, e2) < cell_bound(),
                    e <= ncols,
                    totals.len() == ncols,
                    forall|e2: int|
                        0 <= e2 < e ==> #[trigger] totals@[e2] == column_total(g.take(q + 1), e2),
                    forall|e2: int|
                        e <= e2 < ncols ==> #[trigger] totals@[e2] == column_total(g.take(q), e2),
                decreases ncols - e,
            {
                proof {
                    lemma_column_total_prefix(g, q + 1, e as int);
                }
                let x = totals[e] + table[j].values[e];
                totals.set(e, x);
                e += 1;
            }
        } else {
            proof {
                assert forall|e2: int| 0 <= e2 < ncols implies #[trigger] totals@[e2] == column_total(
                    g.take(q + 1),
                    e2,
                ) by {}
            }
        }
        out.push(new_row);
        proof {
            assert forall|e2: int| 0 <= e2 < ncols implies seq_sum(#[trigger] column(out@, e2))
                == column_total(g.take(q + 1), e2) by {
                lemma_column_push(old_out, new_row, e2);
                assert(out@ == old_out.push(new_row));
                if is_project_row(new_row) {
                    assert(column(old_out, e2).push(new_row.values@[e2] as int).drop_last() =~= column(
                        old_out,
                        e2,
                    ));
                }
            }
            assert forall|q2: int| 0 <= q2 < out.len() implies row_shows(#[trigger] out@[q2], g[q2]) by {
                if q2 < old_out.len() {
                    assert(out@[q2] == old_out[q2]);
                }
            }
        }
        j += 1;
    }
    proof {
        assert(g.take(end - start) =~= g);
        let v = as_ints(totals@);
        assert forall|k: int| 0 <= k < v.len() implies 0 <= #[trigger] v[k] <= cell_bound() by {
            assert(v[k] == column_total(g, k));
            lemma_column_total_nonneg(g, k);
        }
        lemma_sum_le_bound(v, cell_bound());
    }
    let grand = sum_values(totals.as_slice());
    let ghost body = out@;
    let total_row = TimesheetPreviewRow {
        label: "Total".to_string(),
        values: totals,
        total: grand,
        is_comment: false,
        is_total: true,
    };
    out.push(total_row);
    proof {
        assert(out@ == body.push(total_row));
        assert(out@[g.len() as int] == total_row);
        assert forall|q2: int| 0 <= q2 < g.len() implies row_shows(#[trigger] out@[q2], g[q2]) by {
            assert(out@[q2] == body[q2]);
        }
        assert(out@.drop_last() =~= body);
        lemma_first_total_none(body);
        assert(first_total(out@) == Some(g.len() as int));
        assert(value_count(out@) == ncols);
        assert forall|e2: int| 0 <= e2 < value_count(out@) implies seq_sum(#[trigger] column(out@, e2))
            <= cell_bound() by {
            lemma_column_push(body, total_row, e2);
        }
        assert forall|i: int|
            0 <= i < out.len() && is_project_row(#[trigger] out@[i]) implies out@[i].values.len()
            == value_count(out@) by {
            assert(i < g.len());
            assert(g[i] == table@[start + i]@);
        }
        assert forall|i: int| 0 <= i < out.len() && (#[trigger] out@[i]).is_comment implies out@[i].values.len()
            <= 65536 && forall|k: int|
            0 <= k < out@[i].values.len() ==> out@[i].values@[k] <= cell_bound() by {
            assert(i < g.len());
            assert(g[i] == table@[start + i]@);
        }
    }
    out
}

// ---------------------------------------------------------------------------
// Sheets
// ---------------------------------------------------------------------------

/// Whether two rows belong to the same sheet (ISO year and week).
pub open spec fn same_sheet(a: RowKey, b: RowKey) -> bool {
    a.year == b.year && a.week == b.week
}

/// The rows of `t` in runs of the same sheet, in order.
pub open spec fn sheet_groups(t: Seq<TableRowData>) -> Seq<Seq<TableRowData>>
    decreases t.len(),
{
    if t.len() == 0 {
        Seq::<Seq<TableRowData>>::empty()
    } else {
        let g = sheet_groups(t.drop_last());
        if g.len() > 0 && same_sheet(g.last().last().key, t.last().key) {
            g.update(g.len() - 1, g.last().push(t.last()))
        } else {
            g.push(seq![t.last()])
        }
    }
}

/// The short English name of a weekday counted from Monday = 0.
pub open spec fn day_abbreviation(weekday: int) -> Seq<char> {
    if weekday == 0 {
        "Mon"@
    } else if weekday == 1 {
        "Tue"@
    } else if weekday == 2 {
        "Wed"@
    } else if weekday == 3 {
        "Thu"@
    } else if weekday == 4 {
        "Fri"@
    } else if weekday == 5 {
        "Sat"@
    } else {
        "Sun"@
    }
}

/// The column headers of a week sheet.
pub open spec fn week_columns() -> Seq<Seq<char>> {
    seq!["Mon"@, "Tue"@, "Wed"@, "Thu"@, "Fri"@, "Sat"@, "Sun"@]
}

/// The name of an ISO week: its year, a dash and its week number.
pub open spec fn week_name_of(year: int, week: nat) -> Seq<char> {
    signed_decimal(year) + seq!['-'] + decimal(week)
}

/// The name of a week sheet (`week_name_of` its year and week).
pub open spec fn week_sheet_name(k: RowKey) -> Seq<char> {
    week_name_of(k.year, k.week as nat)
}

/// `s` is the sheet `name` with the day columns `columns`, showing the rows
/// `g` and their totals.
pub open spec fn sheet_shows(
    s: TimesheetPreviewSheet,
    name: Seq<char>,
    columns: Seq<Seq<char>>,
    g: Seq<TableRowData>,
) -> bool {
    &&& s.name@ == name
    &&& string_views(s.columns@) == columns
    &&& rows_show(s.rows@, g, columns.len() as int)
}

/// The title and the single sheet's name of the two-day overview.
pub open spec fn recent_title() -> Seq<char> {
    "Yesterday + today"@
}

/// `r` is the preview of the timesheet table `t`, generated at the given
/// time: for the two-day overview one sheet with all rows and the weekdays
/// of yesterday and today as columns; otherwise one sheet per ISO week, in
/// order, named by year and week, with the days Monday to Sunday as columns.
pub open spec fn preview_shows(
    r: TimesheetPreview,
    t: Seq<TableRowData>,
    o: TimesheetOptions,
    days: TimesheetDays,
    generated_at: Seq<char>,
    generated_at_epoch_ms: i64,
) -> bool {
    &&& r.generated_at@ == generated_at
    &&& r.generated_at_epoch_ms == generated_at_epoch_ms
    &&& if o.format == TimesheetFormat::Recent {
        &&& r.title@ == recent_title()
        &&& r.sheets.len() == 1
        &&& sheet_shows(
            r.sheets@[0],
            recent_title(),
            seq![
                day_abbreviation(days.yesterday.weekday as int),
                day_abbreviation(days.today.weekday as int),
            ],
            t,
        )
    } else {
        let gs = sheet_groups(t);
        &&& r.title@ == "Full timesheet"@
        &&& r.sheets.len() == gs.len()
        &&& forall|s: int|
            0 <= s < gs.len() ==> sheet_shows(
                #[trigger] r.sheets@[s],
                week_sheet_name(gs[s][0].key),
                week_columns(),
                gs[s],
            )
    }
}

/// The error of a timesheet with no booked time.
pub open spec fn nothing_booked_message(o: TimesheetOptions) -> Seq<char> {
    if o.format == TimesheetFormat::Recent {
        "No hours were found for today or yesterday."@
    } else {
        "No hours were found for the selected range."@
    }
}

proof fn lemma_groups_last(t: Seq<TableRowData>)
    requires
        t.len() > 0,
    ensures
        sheet_groups(t).len() > 0,
        sheet_groups(t).last().len() > 0,
        sheet_groups(t).last().last() == t.last(),
{
}

proof fn lemma_groups_extend(t: Seq<TableRowData>, start: int, end: int)
    requires
        0 <= start < end <= t.len(),
        forall|k: int| start <= k < end ==> same_sheet(#[trigger] t[k].key, t[start].key),
        start == 0 || !same_sheet(t[start - 1].key, t[start].key),
    ensures
        sheet_groups(t.take(end)) == sheet_groups(t.take(start)).push(t.subrange(start, end)),
    decreases end - start,
{
    let pre = t.take(end);
    assert(pre.drop_last() =~= t.take(end - 1));
    assert(pre.last() == t[end - 1]);
    if end == start + 1 {
        if start > 0 {
            lemma_groups_last(t.take(start));
            assert(t.take(start).last() == t[start - 1]);
        }
        assert(seq![t[start]] =~= t.subrange(start, end));
    } else {
        lemma_groups_extend(t, start, end - 1);
        let g = sheet_groups(t.take(start)).push(t.subrange(start, end - 1));
        assert(g.last().last() == t[end - 2]);
        assert(same_sheet(t[end - 2].key, t[end - 1].key));
        assert(g.update(g.len() - 1, g.last().push(t[end - 1])) =~= sheet_groups(t.take(start)).push(
            t.subrange(start, end),
        )) by {
            assert(t.subrange(start, end - 1).push(t[end - 1]) =~= t.subrange(start, end));
        }
    }
}

proof fn lemma_seq_sum_subrange(s: Seq<int>, a: int, b: int)
    requires
        0 <= a <= b <= s.len(),
        forall|k: int| 0 <= k < s.len() ==> s[k] >= 0,
    ensures
        seq_sum(s.subrange(a, b)) <= seq_sum(s),
    decreases s.len(),
{
    if a == b {
        assert(s.subrange(a, b) =~= Seq::<int>::empty());
        lemma_sum_nonneg(s);
    } else if b < s.len() {
        assert(s.subrange(a, b) =~= s.drop_last().subrange(a, b));
        lemma_seq_sum_subrange(s.drop_last(), a, b);
    } else {
        assert(s.subrange(a, b).drop_last() =~= s.drop_last().subrange(a, b - 1));
        lemma_seq_sum_subrange(s.drop_last(), a, b - 1);
    }
}

proof fn lemma_row_weight_nonneg(r: TableRowData)
    ensures
        row_weight(r) >= 0,
{
    lemma_sum_nonneg(as_ints(r.values));
}

proof fn lemma_mass_subrange(t: Seq<TableRowData>, a: int, b: int)
    requires
        0 <= a <= b <= t.len(),
    ensures
        table_mass(t.subrange(a, b)) <= table_mass(t),
{
    let w = t.map_values(|r: TableRowData| row_weight(r));
    assert forall|k: int| 0 <= k < w.len() implies w[k] >= 0 by {
        lemma_row_weight_nonneg(t[k]);
    }
    assert(t.subrange(a, b).map_values(|r: TableRowData| row_weight(r)) =~= w.subrange(a, b));
    lemma_seq_sum_subrange(w, a, b);
}

proof fn lemma_column_total_le_mass(g: Seq<TableRowData>, c: int)
    requires
        0 <= c,
        forall|j: int| 0 <= j < g.len() ==> (#[trigger] g[j]).values.len() > c,
    ensures
        column_total(g, c) <= table_mass(g),
    decreases g.len(),
{
    if g.len() > 0 {
        lemma_column_total_le_mass(g.drop_last(), c);
        let w = g.map_values(|r: TableRowData| row_weight(r));
        assert(w.drop_last() =~= g.drop_last().map_values(|r: TableRowData| row_weight(r)));
        let r = g.last();
        assert(g[g.len() - 1] == r);
        if r.key.comment.len() == 0 {
            assert(as_ints(r.values)[c] == r.values[c] as int);
            lemma_element_le_sum(as_ints(r.values), c);
        }
    }
}

// ---------------------------------------------------------------------------
// Executable sheets and preview
// ---------------------------------------------------------------------------

/// The short English name of a weekday (`day_abbreviation`).
pub fn day_abbreviation_of(weekday: u32) -> (r: String)
    ensures
        r@ == day_abbreviation(weekday as int),
{
    if weekday == 0 {
        "Mon".to_string()
    } else if weekday == 1 {
        "Tue".to_string()
    } else if weekday == 2 {
        "Wed".to_string()
    } else if weekday == 3 {
        "Thu".to_string()
    } else if weekday == 4 {
        "Fri".to_string()
    } else if weekday == 5 {
        "Sat".to_string()
    } else {
        "Sun".to_string()
    }
}

/// The name of the week sheet of a row (`week_sheet_name`).
fn week_sheet_name_of(row: &TableRow) -> (r: String)
    ensures
        r@ == week_sheet_name(row@.key),
{
    let mut cs: Vec<char> = Vec::new();
    push_signed_decimal(&mut cs, row.year);
    cs.push('-');
    push_decimal(&mut cs, row.week as u64);
    proof {
        assert(cs@ =~= week_sheet_name(row@.key));
    }
    string_of(cs.as_slice())
}

/// The sheets of a full timesheet: one per run of rows of the same week.
fn week_sheets(table: &Vec<TableRow>) -> (r: Vec<TimesheetPreviewSheet>)
    requires
        forall|j: int, c: int|
            0 <= j < table.len() && 0 <= c < 7 ==> #[trigger] table@[j].values@[c] < cell_bound(),
        forall|j: int| 0 <= j < table.len() ==> (#[trigger] table@[j]).values.len() == 7,
        table_mass(rows_of(table@)) < cell_bound(),
    ensures
        r.len() == sheet_groups(rows_of(table@)).len(),
        forall|s: int|
            0 <= s < r.len() ==> sheet_shows(
                #[trigger] r@[s],
                week_sheet_name(sheet_groups(rows_of(table@))[s][0].key),
                week_columns(),
                sheet_groups(rows_of(table@))[s],
            ) && rows_roundable(r@[s].rows@),
{
    let ghost t = rows_of(table@);
    let mut sheets: Vec<TimesheetPreviewSheet> = Vec::new();
    let mut start: usize = 0;
    proof {
        assert(t.take(0) =~= Seq::<TableRowData>::empty());
    }
    while start < table.len()
        invariant
            t == rows_of(table@),
            start <= table.len(),
            forall|j: int, c: int|
                0 <= j < table.len() && 0 <= c < 7 ==> #[trigger] table@[j].values@[c] < cell_bound(),
            forall|j: int| 0 <= j < table.len() ==> (#[trigger] table@[j]).values.len() == 7,
            table_mass(t) < cell_bound(),
            start == 0 || start == table.len() || !same_sheet(t[start - 1].key, t[start as int].key),
            sheets.len() == sheet_groups(t.take(start as int)).len(),
            forall|s: int|
                0 <= s < sheets.len() ==> sheet_shows(
                    #[trigger] sheets@[s],
                    week_sheet_name(sheet_groups(t.take(start as int))[s][0].key),
                    week_columns(),
                    sheet_groups(t.take(start as int))[s],
                ) && rows_roundable(sheets@[s].rows@),
        decreases table.len() - start,
    {
        let mut end: usize = start + 1;
        proof {
            assert(t[start as int] == table@[start as int]@);
        }
        while end < table.len() && table[end].year == table[start].year && table[end].week
            == table[start].week
            invariant
                t == rows_of(table@),
                start < end <= table.len(),
                forall|k: int| start <= k < end ==> same_sheet(#[trigger] t[k].key, t[start as int].key),
            decreases table.len() - end,
        {
            proof {
                assert(t[end as int] == table@[end as int]@);
                assert(t[start as int] == table@[start as int]@);
            }
            end += 1;
        }
        proof {
            if end < table.len() {
                assert(t[end as int] == table@[end as int]@);
                assert(t[start as int] == table@[start as int]@);
                assert(t[end - 1] == table@[end - 1]@);
                assert(same_sheet(t[end - 1].key, t[start as int].key));
            }
            lemma_groups_extend(t, start as int, end as int);
            let g = t.subrange(start as int, end as int);
            lemma_mass_subrange(t, start as int, end as int);
            assert forall|c: int| 0 <= c < 7 implies #[trigger] column_total(g, c) < cell_bound() by {
                assert forall|j: int| 0 <= j < g.len() implies (#[trigger] g[j]).values.len() > c by {
                    assert(g[j] == table@[start + j]@);
                }
                lemma_column_total_le_mass(g, c);
            }
            assert(g[0] == t[start as int]);
        }
        let rows = build_rows(table, start, end, 7);
        let name = week_sheet_name_of(&table[start]);
        let columns = vec![
            "Mon".to_string(),
            "Tue".to_string(),
            "Wed".to_string(),
            "Thu".to_string(),
            "Fri".to_string(),
            "Sat".to_string(),
            "Sun".to_string(),
        ];
        proof {
            assert(string_views(columns@) =~= week_columns());
        }
        let ghost before = sheets@;
        let sheet = TimesheetPreviewSheet { name, columns, rows };
        sheets.push(sheet);
        proof {
            let gs = sheet_groups(t.take(end as int));
            assert(gs == sheet_groups(t.take(start as int)).push(t.subrange(start as int, end as int)));
            assert forall|s: int| 0 <= s < sheets.len() implies sheet_shows(
                #[trigger] sheets@[s],
                week_sheet_name(gs[s][0].key),
                week_columns(),
                gs[s],
            ) && rows_roundable(sheets@[s].rows@) by {
                if s < before.len() {
                    assert(sheets@[s] == before[s]);
                } else {
                    assert(sheets@[s] == sheet);
                    assert(gs[s] == t.subrange(start as int, end as int));
                    assert(gs[s][0] == t[start as int]);
                    assert(t[start as int] == table@[start as int]@);
                }
            }
        }
        start = end;
    }
    proof {
        assert(t.take(table.len() as int) =~= t);
    }
    sheets
}

/// The timesheet preview of the log entries (`preview_shows` of the
/// timesheet's table, see `is_timesheet_table`), generated at the given
/// time; an error when no time is booked.
pub fn build_preview(
    entries: &Vec<LogEntry>,
    options: TimesheetOptions,
    days: TimesheetDays,
    generated_at: String,
    generated_at_epoch_ms: i64,
) -> (r: Result<TimesheetPreview, String>)
    requires
        is_time_ordered(entry_views(entries@)),
        forall|k: int| 0 <= k < entries.len() ==> stamp_ok(#[trigger] entries@[k].stamp),
    ensures
        ({
            let es = entry_views(entries@);
            match r {
                Ok(v) => {
                    &&& exists|i: int|
                        0 <= i < interval_count(es) && (#[trigger] slot(es, i, options, days)) is Some
                    &&& exists|t: Seq<TableRowData>|
                        is_timesheet_table(t, es, options, days) && preview_shows(
                            v,
                            t,
                            options,
                            days,
                            generated_at@,
                            generated_at_epoch_ms,
                        )
                    &&& preview_roundable(v)
                },
                Err(msg) => {
                    &&& forall|i: int|
                        0 <= i < interval_count(es) ==> (#[trigger] slot(es, i, options, days)) is None
                    &&& msg@ == nothing_booked_message(options)
                },
            }
        }),
{
    let ghost es = entry_views(entries@);
    let table = book_entries(entries, options, days);
    let ghost t = rows_of(table@);
    proof {
        lemma_table_empty_iff_nothing_booked(t, es, options, days);
        lemma_table_values_bounded(t, es, options, days);
        assert forall|j: int| 0 <= j < table.len() implies (#[trigger] table@[j]).values.len()
            == column_count(options) by {
            assert(t[j] == table@[j]@);
        }
        assert forall|j: int, c: int| 0 <= j < table.len() && 0 <= c < column_count(options) implies #[trigger] table@[j].values@[c]
            < cell_bound() by {
            assert(t[j] == table@[j]@);
        }
    }
    if table.len() == 0 {
        if options.format == TimesheetFormat::Recent {
            return Err("No hours were found for today or yesterday.".to_string());
        } else {
            return Err("No hours were found for the selected range.".to_string());
        }
    }
    if options.format == TimesheetFormat::Recent {
        proof {
            assert(t.subrange(0, t.len() as int) =~= t);
            assert forall|c: int| 0 <= c < 2 implies #[trigger] column_total(t, c) < cell_bound() by {
                assert forall|j: int| 0 <= j < t.len() implies (#[trigger] t[j]).values.len() > c by {
                    assert(t[j] == table@[j]@);
                }
                lemma_column_total_le_mass(t, c);
            }
        }
        let rows = build_rows(&table, 0, table.len(), 2);
        let columns = vec![
            day_abbreviation_of(days.yesterday.weekday),
            day_abbreviation_of(days.today.weekday),
        ];
        proof {
            assert(string_views(columns@) =~= seq![
                day_abbreviation(days.yesterday.weekday as int),
                day_abbreviation(days.today.weekday as int),
            ]);
        }
        let sheet = TimesheetPreviewSheet { name: "Yesterday + today".to_string(), columns, rows };
        let preview = TimesheetPreview {
            title: "Yesterday + today".to_string(),
            generated_at,
            generated_at_epoch_ms,
            sheets: vec![sheet],
        };
        proof {
            assert(preview.sheets@[0] == sheet);
        }
        Ok(preview)
    } else {
        let sheets = week_sheets(&table);
        let preview = TimesheetPreview {
            title: "Full timesheet".to_string(),
            generated_at,
            generated_at_epoch_ms,
            sheets,
        };
        Ok(preview)
    }
}

// ---------------------------------------------------------------------------
// The preview of a log
// ---------------------------------------------------------------------------

/// `r` is the preview of the log `content` on the given days, generated at
/// the given time: the log's error when it holds no entries that matter, the
/// error of `nothing_booked_message` when they book no time, and otherwise
/// the preview of the timesheet's table, its hours rounded to half hours
/// when the options ask for it.
pub open spec fn preview_outcome(
    content: Seq<char>,
    o: TimesheetOptions,
    days: TimesheetDays,
    generated_at: Seq<char>,
    generated_at_epoch_ms: i64,
    r: Result<TimesheetPreview, String>,
) -> bool {
    match parsed_log(content, o.format == TimesheetFormat::Recent, days.yesterday.day as int) {
        Err(e) => r matches Err(m) && m@ == e,
        Ok(es) => if forall|i: int|
            0 <= i < interval_count(es) ==> (#[trigger] slot(es, i, o, days)) is None {
            r matches Err(m) && m@ == nothing_booked_message(o)
        } else {
            &&& r is Ok
            &&& exists|t: Seq<TableRowData>|
                #[trigger] is_timesheet_table(t, es, o, days) && if o.rounding_enabled {
                    exists|p: TimesheetPreview|
                        #[trigger] preview_shows(p, t, o, days, generated_at, generated_at_epoch_ms)
                            && is_rounded_preview(r->Ok_0, p)
                } else {
                    preview_shows(r->Ok_0, t, o, days, generated_at, generated_at_epoch_ms)
                }
        },
    }
}

/// The preview of the log `content` on the given days, generated at the
/// given time (`preview_outcome`).
pub fn timesheet_preview(
    content: &str,
    options: TimesheetOptions,
    days: TimesheetDays,
    generated_at: String,
    generated_at_epoch_ms: i64,
) -> (r: Result<TimesheetPreview, String>)
    ensures
        preview_outcome(content@, options, days, generated_at@, generated_at_epoch_ms, r),
{
    let recent = options.format == TimesheetFormat::Recent;
    let ghost gen = generated_at@;
    let parsed = match parse_log(content, recent, days.yesterday.day) {
        Ok(p) => p,
        Err(e) => {
            return Err(e);
        },
    };
    proof {
        let raw = raw_entries(text_lines(content@));
        lemma_time_sorted(
            if recent {
                entries_since(raw, days.yesterday.day as int)
            } else {
                raw
            },
        );
    }
    let ghost es = entry_views(parsed@);
    let built = match build_preview(&parsed, options, days, generated_at, generated_at_epoch_ms) {
        Ok(p) => p,
        Err(e) => {
            return Err(e);
        },
    };
    proof {
        assert(!(forall|i: int|
            0 <= i < interval_count(es) ==> (#[trigger] slot(es, i, options, days)) is None));
    }
    if options.rounding_enabled {
        let rounded = apply_rounding_to_preview(built);
        proof {
            let t = choose|t: Seq<TableRowData>|
                is_timesheet_table(t, es, options, days) && preview_shows(
                    built,
                    t,
                    options,
                    days,
                    gen,
                    generated_at_epoch_ms,
                );
            assert(preview_shows(built, t, options, days, gen, generated_at_epoch_ms));
            assert(is_timesheet_table(t, es, options, days));
        }
        Ok(rounded)
    } else {
        Ok(built)
    }
}

/// The format of the time a preview is generated at.
pub open spec fn generated_time_format() -> Seq<char> {
    "%Y-%m-%d %H:%M"@
}

/// `r` is a preview of the log `content` (`preview_outcome`) for some today
/// the clock can give (from 1969-12-31 on) and the day before it,
/// generated at some reading of the clock written in
/// `generated_time_format`; or the error that the clock could not be read.
pub open spec fn preview_result(
    content: Seq<char>,
    options: TimesheetOptions,
    r: Result<TimesheetPreview, String>,
) -> bool {
    ||| exists|days: TimesheetDays, t: LocalReading, generated_at_epoch_ms: i64|
        clock_epoch_day() <= days.today.day && calendar_day_ok(days.today) && calendar_day_for(
            days.today.day - 1,
        ) == Some(days.yesterday) && reading_ok(t) && generated_at_epoch_ms >= 0
            && #[trigger] preview_outcome(
            content,
            options,
            days,
            rendered_time(generated_time_format(), t),
            generated_at_epoch_ms,
            r,
        )
    ||| r matches Err(m) && m@ == clock_error_message()
}

/// The preview of the log `content` (`preview_outcome`), for today and
/// yesterday by the local clock and generated now (`generated_time_format`);
/// the error of `clock_error_message` when the clock cannot be read.
pub fn preview(content: &str, options: TimesheetOptions) -> (r: Result<TimesheetPreview, String>)
    ensures
        preview_result(content@, options, r),
{
    let today = match local_today() {
        Some(d) => d,
        None => {
            return Err(clock_error());
        },
    };
    let yesterday = calendar_day(today.day - 1).unwrap();
    let days = TimesheetDays { today, yesterday };
    let (generated_at, generated_at_epoch_ms, t) = match local_now("%Y-%m-%d %H:%M") {
        Some(now) => now,
        None => {
            return Err(clock_error());
        },
    };
    let r = timesheet_preview(content, options, days, generated_at, generated_at_epoch_ms);
    proof {
        assert(preview_outcome(
            content@,
            options,
            days,
            rendered_time(generated_time_format(), t),
            generated_at_epoch_ms,
            r,
        ));
    }
    r
}

// ---------------------------------------------------------------------------
// The grand total
// ---------------------------------------------------------------------------

/// The total of a sheet: that of its last row, the totals row.
pub open spec fn sheet_total(s: TimesheetPreviewSheet) -> int {
    s.rows@.last().total as int
}

/// The totals of the sheets added up.
pub open spec fn grand_total(sheets: Seq<TimesheetPreviewSheet>) -> int
    decreases sheets.len(),
{
    if sheets.len() == 0 {
        0
    } else {
        grand_total(sheets.drop_last()) + sheet_total(sheets.last())
    }
}

/// The masses of the groups added up.
pub open spec fn groups_mass(gs: Seq<Seq<TableRowData>>) -> int
    decreases gs.len(),
{
    if gs.len() == 0 {
        0
    } else {
        groups_mass(gs.drop_last()) + table_mass(gs.last())
    }
}

proof fn lemma_seq_sum_pointwise(a: Seq<int>, b: Seq<int>)
    requires
        a.len() == b.len(),
    ensures
        seq_sum(Seq::new(a.len(), |c: int| a[c] + b[c])) == seq_sum(a) + seq_sum(b),
    decreases a.len(),
{
    let s = Seq::new(a.len(), |c: int| a[c] + b[c]);
    if a.len() > 0 {
        lemma_seq_sum_pointwise(a.drop_last(), b.drop_last());
        assert(s.drop_last() =~= Seq::new(
            a.drop_last().len(),
            |c: int| a.drop_last()[c] + b.drop_last()[c],
        ));
    }
}

proof fn lemma_table_mass_push(g: Seq<TableRowData>, r: TableRowData)
    ensures
        table_mass(g.push(r)) == table_mass(g) + row_weight(r),
{
    assert(g.push(r).map_values(|x: TableRowData| row_weight(x)) =~= g.map_values(
        |x: TableRowData| row_weight(x),
    ).push(row_weight(r)));
    crate::rounding::lemma_seq_sum_push(g.map_values(|x: TableRowData| row_weight(x)), row_weight(r));
}

/// The column totals of a group add up to its mass.
proof fn lemma_columns_add_up_to_mass(g: Seq<TableRowData>, n: int)
    requires
        n >= 0,
        forall|j: int| 0 <= j < g.len() ==> (#[trigger] g[j]).values.len() == n,
    ensures
        seq_sum(Seq::new(n as nat, |c: int| column_total(g, c))) == table_mass(g),
    decreases g.len(),
{
    if g.len() == 0 {
        crate::timesheet_table::lemma_seq_sum_zeros(Seq::new(n as nat, |c: int| column_total(g, c)));
        assert(g.map_values(|x: TableRowData| row_weight(x)) =~= Seq::<int>::empty());
    } else {
        let h = g.drop_last();
        let r = g.last();
        assert(r == g[g.len() - 1]);
        lemma_columns_add_up_to_mass(h, n);
        let a = Seq::new(n as nat, |c: int| column_total(h, c));
        let w = Seq::new(
            n as nat,
            |c: int|
                if r.key.comment.len() == 0 {
                    r.values[c] as int
                } else {
                    0int
                },
        );
        lemma_seq_sum_pointwise(a, w);
        assert(Seq::new(n as nat, |c: int| column_total(g, c)) =~= Seq::new(a.len(), |c: int| a[c] + w[c]));
        if r.key.comment.len() == 0 {
            assert(w =~= as_ints(r.values));
        } else {
            crate::timesheet_table::lemma_seq_sum_zeros(w);
        }
        assert(h.push(r) =~= g);
        lemma_table_mass_push(h, r);
    }
}

proof fn lemma_groups_mass(t: Seq<TableRowData>)
    ensures
        groups_mass(sheet_groups(t)) == table_mass(t),
    decreases t.len(),
{
    if t.len() == 0 {
        assert(t.map_values(|x: TableRowData| row_weight(x)) =~= Seq::<int>::empty());
    } else {
        let h = t.drop_last();
        let r = t.last();
        lemma_groups_mass(h);
        assert(h.push(r) =~= t);
        lemma_table_mass_push(h, r);
        let g = sheet_groups(h);
        if g.len() > 0 && same_sheet(g.last().last().key, r.key) {
            let u = g.update(g.len() - 1, g.last().push(r));
            assert(u.drop_last() =~= g.drop_last());
            lemma_table_mass_push(g.last(), r);
        } else {
            assert(g.push(seq![r]).drop_last() =~= g);
            assert(seq![r] =~= Seq::<TableRowData>::empty().push(r));
            lemma_table_mass_push(Seq::<TableRowData>::empty(), r);
            assert(Seq::<TableRowData>::empty().map_values(|x: TableRowData| row_weight(x))
                =~= Seq::<int>::empty());
        }
    }
}

proof fn lemma_sheet_total(s: TimesheetPreviewSheet, name: Seq<char>, columns: Seq<Seq<char>>, g: Seq<TableRowData>)
    requires
        sheet_shows(s, name, columns, g),
        forall|j: int| 0 <= j < g.len() ==> (#[trigger] g[j]).values.len() == columns.len(),
    ensures
        sheet_total(s) == table_mass(g),
{
    let n = columns.len() as int;
    let total = s.rows@[g.len() as int];
    assert(s.rows@.last() == total);
    lemma_columns_add_up_to_mass(g, n);
    assert(as_ints(total.values@) =~= Seq::new(n as nat, |c: int| column_total(g, c)));
}

proof fn lemma_grand_total_groups(
    sheets: Seq<TimesheetPreviewSheet>,
    gs: Seq<Seq<TableRowData>>,
    ncols: int,
)
    requires
        sheets.len() == gs.len(),
        forall|s: int|
            0 <= s < gs.len() ==> sheet_shows(
                #[trigger] sheets[s],
                week_sheet_name(gs[s][0].key),
                week_columns(),
                gs[s],
            ),
        ncols == 7,
        forall|s: int, j: int|
            0 <= s < gs.len() && 0 <= j < gs[s].len() ==> (#[trigger] gs[s][j]).values.len() == ncols,
    ensures
        grand_total(sheets) == groups_mass(gs),
    decreases gs.len(),
{
    if gs.len() > 0 {
        let k = gs.len() - 1;
        lemma_grand_total_groups(sheets.drop_last(), gs.drop_last(), ncols);
        assert(sheets.last() == sheets[k]);
        assert(gs.last() == gs[k]);
        assert forall|j: int| 0 <= j < gs[k].len() implies (#[trigger] gs[k][j]).values.len()
            == week_columns().len() by {}
        lemma_sheet_total(sheets[k], week_sheet_name(gs[k][0].key), week_columns(), gs[k]);
    }
}

proof fn lemma_groups_rows(t: Seq<TableRowData>, n: int)
    requires
        forall|j: int| 0 <= j < t.len() ==> (#[trigger] t[j]).values.len() == n,
    ensures
        forall|s: int, j: int|
            0 <= s < sheet_groups(t).len() && 0 <= j < sheet_groups(t)[s].len() ==> (#[trigger] sheet_groups(
                t,
            )[s][j]).values.len() == n,
    decreases t.len(),
{
    if t.len() > 0 {
        let h = t.drop_last();
        let r = t.last();
        lemma_groups_rows(h, n);
        assert(r == t[t.len() - 1]);
        let g = sheet_groups(h);
        let gt = sheet_groups(t);
        assert forall|s: int, j: int| 0 <= s < gt.len() && 0 <= j < gt[s].len() implies (#[trigger] gt[s][j]).values.len()
            == n by {
            if g.len() > 0 && same_sheet(g.last().last().key, r.key) {
                if s == g.len() - 1 {
                    if j < g.last().len() {
                        assert(gt[s][j] == g[s][j]);
                    }
                } else {
                    assert(gt[s] == g[s]);
                }
            } else {
                if s < g.len() {
                    assert(gt[s] == g[s]);
                }
            }
        }
    }
}

/// A timesheet's totals add up to the time booked: the totals rows of its
/// sheets hold together exactly the seconds its entries book
/// (`spent`), every booked second counted once.
pub proof fn lemma_preview_total_is_booked_time(
    v: TimesheetPreview,
    t: Seq<TableRowData>,
    es: Seq<crate::time_log::EntryData>,
    o: TimesheetOptions,
    days: TimesheetDays,
    generated_at: Seq<char>,
    generated_at_epoch_ms: i64,
)
    requires
        is_timesheet_table(t, es, o, days),
        preview_shows(v, t, o, days, generated_at, generated_at_epoch_ms),
    ensures
        grand_total(v.sheets@) == spent(es, interval_count(es), o, days),
{
    let n = column_count(o);
    assert forall|j: int| 0 <= j < t.len() implies (#[trigger] t[j]).values.len() == n by {}
    if o.format == TimesheetFormat::Recent {
        let s = v.sheets@[0];
        lemma_sheet_total(
            s,
            recent_title(),
            seq![
                day_abbreviation(days.yesterday.weekday as int),
                day_abbreviation(days.today.weekday as int),
            ],
            t,
        );
        assert(v.sheets@.drop_last().len() == 0);
        assert(grand_total(v.sheets@.drop_last()) == 0);
        assert(v.sheets@.last() == s);
        assert(sheet_total(s) == table_mass(t));
        assert(table_mass(t) == spent(es, interval_count(es), o, days));
    } else {
        lemma_groups_rows(t, n);
        lemma_grand_total_groups(v.sheets@, sheet_groups(t), n);
        lemma_groups_mass(t);
        assert(table_mass(t) == spent(es, interval_count(es), o, days));
    }
}

// ---------------------------------------------------------------------------
// Rounding the preview
// ---------------------------------------------------------------------------

proof fn lemma_rows_show_alike(a: Seq<TimesheetPreviewRow>, b: Seq<TimesheetPreviewRow>, g: Seq<TableRowData>, n: int)
    requires
        rows_show(a, g, n),
        rows_show(b, g, n),
    ensures
        rows_alike(a, b),
{
    assert forall|i: int| 0 <= i < a.len() implies (#[trigger] a[i]).label@ == b[i].label@ && a[i].values@
        == b[i].values@ && a[i].total == b[i].total && a[i].is_comment == b[i].is_comment
        && a[i].is_total == b[i].is_total by {
        if i < g.len() {
            assert(row_shows(a[i], g[i]) && row_shows(b[i], g[i]));
        } else {
            assert(i == g.len());
            assert forall|c: int| 0 <= c < n implies a[i].values@[c] == b[i].values@[c] by {
                assert(a[i].values@[c] == column_total(g, c));
                assert(b[i].values@[c] == column_total(g, c));
            }
            assert(a[i].values@ =~= b[i].values@);
        }
    }
}

proof fn lemma_sheets_alike_round(
    new: TimesheetPreviewSheet,
    a: TimesheetPreviewSheet,
    b: TimesheetPreviewSheet,
    name: Seq<char>,
    columns: Seq<Seq<char>>,
    g: Seq<TableRowData>,
)
    requires
        sheet_shows(a, name, columns, g),
        sheet_shows(b, name, columns, g),
        new.name@ == a.name@,
        string_views(new.columns@) == string_views(a.columns@),
        is_rounded_rows(new.rows@, a.rows@),
    ensures
        new.name@ == b.name@,
        string_views(new.columns@) == string_views(b.columns@),
        is_rounded_rows(new.rows@, b.rows@),
{
    lemma_rows_show_alike(a.rows@, b.rows@, g, columns.len() as int);
    lemma_rounded_rows_alike(new.rows@, a.rows@, b.rows@);
}

/// A timesheet with its hours rounded is the same timesheet without
/// rounding, rounded: for the same log, days and time of generation, the
/// preview with rounding on (`r2`) fails exactly when the one with
/// rounding off (`r1`) does, with the same error, and otherwise is that
/// preview with its hours rounded (`is_rounded_preview`).
pub proof fn lemma_rounded_preview_rounds_the_plain_one(
    content: Seq<char>,
    o1: TimesheetOptions,
    o2: TimesheetOptions,
    days: TimesheetDays,
    generated_at: Seq<char>,
    generated_at_epoch_ms: i64,
    r1: Result<TimesheetPreview, String>,
    r2: Result<TimesheetPreview, String>,
)
    requires
        o1.range == o2.range,
        o1.format == o2.format,
        !o1.rounding_enabled,
        o2.rounding_enabled,
        preview_outcome(content, o1, days, generated_at, generated_at_epoch_ms, r1),
        preview_outcome(content, o2, days, generated_at, generated_at_epoch_ms, r2),
    ensures
        r1 is Err <==> r2 is Err,
        r1 matches Err(a) ==> r2 matches Err(b) && a@ == b@,
        r1 matches Ok(v1) ==> r2 matches Ok(v2) && is_rounded_preview(v2, v1),
{
    match parsed_log(content, o1.format == TimesheetFormat::Recent, days.yesterday.day as int) {
        Err(e) => {},
        Ok(es) => {
            lemma_timesheet_table_ignores_rounding(Seq::<TableRowData>::empty(), es, o1, o2, days);
            let none1 = forall|i: int|
                0 <= i < interval_count(es) ==> (#[trigger] slot(es, i, o1, days)) is None;
            let none2 = forall|i: int|
                0 <= i < interval_count(es) ==> (#[trigger] slot(es, i, o2, days)) is None;
            assert(none1 == none2) by {
                if none1 {
                    assert forall|i: int| 0 <= i < interval_count(es) implies (#[trigger] slot(es, i, o2, days)) is None by {
                        assert(slot(es, i, o1, days) == slot(es, i, o2, days));
                    }
                }
                if none2 {
                    assert forall|i: int| 0 <= i < interval_count(es) implies (#[trigger] slot(es, i, o1, days)) is None by {
                        assert(slot(es, i, o1, days) == slot(es, i, o2, days));
                    }
                }
            }
            if !none1 {
                let v1 = r1->Ok_0;
                let v2 = r2->Ok_0;
                let t1 = choose|t: Seq<TableRowData>|
                    #[trigger] is_timesheet_table(t, es, o1, days) && preview_shows(
                        v1,
                        t,
                        o1,
                        days,
                        generated_at,
                        generated_at_epoch_ms,
                    );
                let t2 = choose|t: Seq<TableRowData>|
                    #[trigger] is_timesheet_table(t, es, o2, days) && exists|p: TimesheetPreview|
                        #[trigger] preview_shows(p, t, o2, days, generated_at, generated_at_epoch_ms)
                            && is_rounded_preview(v2, p);
                let p = choose|p: TimesheetPreview|
                    #[trigger] preview_shows(p, t2, o2, days, generated_at, generated_at_epoch_ms)
                        && is_rounded_preview(v2, p);
                lemma_timesheet_table_ignores_rounding(t2, es, o1, o2, days);
                let n = interval_count(es);
                lemma_table_unique(
                    t1,
                    t2,
                    filled_keys(es, n, o1, days),
                    |k: RowKey, c: int| cell(es, n, o1, days, k, c),
                    column_count(o1),
                );
                assert(t1 == t2);
                if o1.format == TimesheetFormat::Recent {
                    lemma_sheets_alike_round(
                        v2.sheets@[0],
                        p.sheets@[0],
                        v1.sheets@[0],
                        recent_title(),
                        seq![
                            day_abbreviation(days.yesterday.weekday as int),
                            day_abbreviation(days.today.weekday as int),
                        ],
                        t1,
                    );
                } else {
                    let gs = sheet_groups(t1);
                    assert forall|s: int| 0 <= s < v1.sheets.len() implies (#[trigger] v2.sheets@[s]).name@
                        == v1.sheets@[s].name@ && string_views(v2.sheets@[s].columns@) == string_views(
                        v1.sheets@[s].columns@,
                    ) && is_rounded_rows(v2.sheets@[s].rows@, v1.sheets@[s].rows@) by {
                        lemma_sheets_alike_round(
                            v2.sheets@[s],
                            p.sheets@[s],
                            v1.sheets@[s],
                            week_sheet_name(gs[s][0].key),
                            week_columns(),
                            gs[s],
                        );
                    }
                }
            }
        },
    }
}

} // verus!

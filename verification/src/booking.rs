//! Booking the time log onto the timesheet's table: each entry runs until the
//! next one starts, and its time goes to its project's row, and to its
//! comment's row when it has a comment, in the column of its day.
use vstd::prelude::*;

use crate::clock::{calendar_day_ok, elapsed, instant, lemma_instant_monotone, stamp_ok, CalendarDay};
use crate::rounding::cell_bound;
use crate::clock::stamp_le;
use crate::time_log::{entry_views, is_time_ordered, EntryData, LogEntry};
use crate::timesheet_model::{TimesheetFormat, TimesheetOptions, TimesheetRange};
use crate::timesheet_table::{add_to_table, has_key, rows_of, table_holds, table_mass, RowKey, TableRow, TableRowData};

verus! {

/// The two days a timesheet is built around: today, and the day before.
#[derive(Clone, Copy, Debug, PartialEq, Eq, Structural)]
pub struct TimesheetDays {
    pub today: CalendarDay,
    pub yesterday: CalendarDay,
}

/// The number of entries that have a successor, and so a length.
pub open spec fn interval_count(es: Seq<EntryData>) -> int {
    if es.len() == 0 {
        0
    } else {
        es.len() - 1
    }
}

/// The seconds entry `i` runs: until the next entry starts.
pub open spec fn duration(es: Seq<EntryData>, i: int) -> int {
    instant(es[i + 1].stamp) - instant(es[i].stamp)
}

/// Whether a day lies in the range a full timesheet asks for.
pub open spec fn in_range(d: CalendarDay, o: TimesheetOptions, days: TimesheetDays) -> bool {
    match o.range {
        TimesheetRange::Today => d.day == days.today.day,
        TimesheetRange::Week => d.iso_year == days.today.iso_year && d.iso_week == days.today.iso_week,
        TimesheetRange::All => true,
    }
}

/// The number of day columns of a sheet.
pub open spec fn column_count(o: TimesheetOptions) -> int {
    if o.format == TimesheetFormat::Recent {
        2
    } else {
        7
    }
}

/// Where entry `i`'s time is booked: the sheet's ISO year and week (0 and 0
/// in the two-day overview) and the day column; `None` when it is not booked
/// (no project, no positive length, or a day outside the timesheet).
pub open spec fn slot(es: Seq<EntryData>, i: int, o: TimesheetOptions, days: TimesheetDays) -> Option<
    (int, int, int),
> {
    let d = es[i].stamp.date;
    if es[i].project.len() == 0 || duration(es, i) <= 0 {
        None
    } else if o.format == TimesheetFormat::Recent {
        if d.day == days.yesterday.day {
            Some((0, 0, 0))
        } else if d.day == days.today.day {
            Some((0, 0, 1))
        } else {
            None
        }
    } else if in_range(d, o, days) {
        Some((d.iso_year as int, d.iso_week as int, d.weekday as int))
    } else {
        None
    }
}

/// The row of entry `i`'s project on sheet (`y`, `w`).
pub open spec fn project_key(es: Seq<EntryData>, i: int, y: int, w: int) -> RowKey {
    RowKey { year: y, week: w, project: es[i].project, comment: Seq::<char>::empty() }
}

/// The row of entry `i`'s comment on sheet (`y`, `w`); the project's own row
/// when the comment is empty.
pub open spec fn comment_key(es: Seq<EntryData>, i: int, y: int, w: int) -> RowKey {
    RowKey { year: y, week: w, project: es[i].project, comment: es[i].comment }
}

/// The seconds entry `i` books to row `k`, column `c`.
pub open spec fn share(
    es: Seq<EntryData>,
    i: int,
    o: TimesheetOptions,
    days: TimesheetDays,
    k: RowKey,
    c: int,
) -> int {
    match slot(es, i, o, days) {
        Some((y, w, col)) => if c == col && (k == project_key(es, i, y, w) || k == comment_key(
            es,
            i,
            y,
            w,
        )) {
            duration(es, i)
        } else {
            0
        },
        None => 0,
    }
}

/// The seconds the first `n` entries book to row `k`, column `c`.
pub open spec fn cell(
    es: Seq<EntryData>,
    n: int,
    o: TimesheetOptions,
    days: TimesheetDays,
    k: RowKey,
    c: int,
) -> int
    decreases n,
{
    if n <= 0 {
        0
    } else {
        cell(es, n - 1, o, days, k, c) + share(es, n - 1, o, days, k, c)
    }
}

/// The seconds entry `i` books in all.
pub open spec fn booked(es: Seq<EntryData>, i: int, o: TimesheetOptions, days: TimesheetDays) -> int {
    if slot(es, i, o, days) is Some {
        duration(es, i)
    } else {
        0
    }
}

/// The seconds the first `n` entries book in all.
pub open spec fn spent(es: Seq<EntryData>, n: int, o: TimesheetOptions, days: TimesheetDays) -> int
    decreases n,
{
    if n <= 0 {
        0
    } else {
        spent(es, n - 1, o, days) + booked(es, n - 1, o, days)
    }
}

/// The rows the first `n` entries book time to.
pub open spec fn filled_keys(
    es: Seq<EntryData>,
    n: int,
    o: TimesheetOptions,
    days: TimesheetDays,
) -> Set<RowKey>
    decreases n,
{
    if n <= 0 {
        Set::<RowKey>::empty()
    } else {
        let before = filled_keys(es, n - 1, o, days);
        match slot(es, n - 1, o, days) {
            Some((y, w, col)) => before.insert(project_key(es, n - 1, y, w)).insert(
                comment_key(es, n - 1, y, w),
            ),
            None => before,
        }
    }
}

/// `t` is the timesheet's table of the entries: one row for each row key
/// that time is booked to, ordered by key, holding the booked seconds per
/// day column; its project rows hold all the time booked.
pub open spec fn is_timesheet_table(
    t: Seq<TableRowData>,
    es: Seq<EntryData>,
    o: TimesheetOptions,
    days: TimesheetDays,
) -> bool {
    let n = interval_count(es);
    &&& table_holds(
        t,
        filled_keys(es, n, o, days),
        |k: RowKey, c: int| cell(es, n, o, days, k, c),
        column_count(o),
    )
    &&& table_mass(t) == spent(es, n, o, days)
}

// ---------------------------------------------------------------------------
// Lemmas
// ---------------------------------------------------------------------------

proof fn lemma_share_bounds(es: Seq<EntryData>, i: int, o: TimesheetOptions, days: TimesheetDays, k: RowKey, c: int)
    ensures
        0 <= share(es, i, o, days, k, c) <= booked(es, i, o, days),
        booked(es, i, o, days) >= 0,
{
}

/// Every cell of the first `n` entries is at most what they book in all.
pub proof fn lemma_cell_le_spent(
    es: Seq<EntryData>,
    n: int,
    o: TimesheetOptions,
    days: TimesheetDays,
    k: RowKey,
    c: int,
)
    ensures
        0 <= cell(es, n, o, days, k, c) <= spent(es, n, o, days),
    decreases n,
{
    if n > 0 {
        lemma_cell_le_spent(es, n - 1, o, days, k, c);
        lemma_share_bounds(es, n - 1, o, days, k, c);
    }
}

/// In time order, the first `n` entries book at most the time from the first
/// entry to the `n`-th.
pub proof fn lemma_spent_le_span(es: Seq<EntryData>, n: int, o: TimesheetOptions, days: TimesheetDays)
    requires
        is_time_ordered(es),
        0 <= n < es.len(),
    ensures
        0 <= spent(es, n, o, days) <= instant(es[n].stamp) - instant(es[0].stamp),
    decreases n,
{
    if n > 0 {
        lemma_spent_le_span(es, n - 1, o, days);
        assert(stamp_le(es[n - 1].stamp, es[n].stamp));
        lemma_instant_monotone(es[n - 1].stamp, es[n].stamp);
    } else {
        lemma_instant_monotone(es[0].stamp, es[0].stamp);
    }
}

/// No time is booked to a row outside the filled rows.
pub proof fn lemma_cell_outside_keys(
    es: Seq<EntryData>,
    n: int,
    o: TimesheetOptions,
    days: TimesheetDays,
    k: RowKey,
    c: int,
)
    requires
        !filled_keys(es, n, o, days).contains(k),
    ensures
        cell(es, n, o, days, k, c) == 0,
    decreases n,
{
    if n > 0 {
        lemma_cell_outside_keys(es, n - 1, o, days, k, c);
    }
}

/// Cells only grow as entries are booked.
proof fn lemma_cell_monotone(
    es: Seq<EntryData>,
    m: int,
    n: int,
    o: TimesheetOptions,
    days: TimesheetDays,
    k: RowKey,
    c: int,
)
    requires
        0 <= m <= n,
    ensures
        cell(es, m, o, days, k, c) <= cell(es, n, o, days, k, c),
    decreases n - m,
{
    if m < n {
        lemma_cell_monotone(es, m, n - 1, o, days, k, c);
        lemma_share_bounds(es, n - 1, o, days, k, c);
    }
}

/// Every filled row holds some time: a positive value in some day column.
pub proof fn lemma_filled_rows_hold_time(
    es: Seq<EntryData>,
    n: int,
    o: TimesheetOptions,
    days: TimesheetDays,
    k: RowKey,
)
    requires
        filled_keys(es, n, o, days).contains(k),
        forall|i: int| 0 <= i < n ==> stamp_ok(#[trigger] es[i].stamp),
    ensures
        exists|c: int| 0 <= c < column_count(o) && #[trigger] cell(es, n, o, days, k, c) > 0,
    decreases n,
{
    if n > 0 {
        let before = filled_keys(es, n - 1, o, days);
        if before.contains(k) {
            lemma_filled_rows_hold_time(es, n - 1, o, days, k);
            let c = choose|c: int| 0 <= c < column_count(o) && #[trigger] cell(es, n - 1, o, days, k, c) > 0;
            lemma_cell_monotone(es, n - 1, n, o, days, k, c);
        } else {
            assert(stamp_ok(es[n - 1].stamp));
            match slot(es, n - 1, o, days) {
                Some((y, w, col)) => {
                    lemma_cell_le_spent(es, n - 1, o, days, k, col);
                    assert(cell(es, n, o, days, k, col) > 0);
                },
                None => {},
            }
        }
    }
}

// ---------------------------------------------------------------------------
// Executable booking
// ---------------------------------------------------------------------------

/// Whether a day lies in the range a full timesheet asks for (`in_range`).
pub fn include_date(date: CalendarDay, options: TimesheetOptions, days: TimesheetDays) -> (r: bool)
    ensures
        r == in_range(date, options, days),
{
    match options.range {
        TimesheetRange::Today => date.day == days.today.day,
        TimesheetRange::Week => date.iso_year == days.today.iso_year && date.iso_week
            == days.today.iso_week,
        TimesheetRange::All => true,
    }
}

/// Where entry `i`'s time is booked (`slot`), with its length in seconds.
fn slot_of(entries: &Vec<LogEntry>, i: usize, options: TimesheetOptions, days: TimesheetDays) -> (r:
    Option<(i32, u32, usize, u128)>)
    requires
        i + 1 < entries.len(),
        stamp_ok(entries@[i as int].stamp),
    ensures
        ({
            let es = entry_views(entries@);
            match r {
                Some((y, w, c, a)) => slot(es, i as int, options, days) == Some(
                    (y as int, w as int, c as int),
                ) && a == duration(es, i as int) && c < column_count(options) && a < cell_bound(),
                None => slot(es, i as int, options, days) is None,
            }
        }),
{
    let ghost es = entry_views(entries@);
    proof {
        assert(es[i as int] == entries@[i as int]@);
        assert(es[i + 1] == entries@[i + 1]@);
    }
    let e = &entries[i];
    let next = &entries[i + 1];
    if e.project.len() == 0 {
        return None;
    }
    let secs: i128 = elapsed(&e.stamp, &next.stamp);
    if secs <= 0 {
        return None;
    }
    let amount = secs as u128;
    let d = e.stamp.date;
    if options.format == TimesheetFormat::Recent {
        if d.day == days.yesterday.day {
            Some((0, 0, 0, amount))
        } else if d.day == days.today.day {
            Some((0, 0, 1, amount))
        } else {
            None
        }
    } else if include_date(d, options, days) {
        Some((d.iso_year, d.iso_week, d.weekday as usize, amount))
    } else {
        None
    }
}

/// The same table under two descriptions of its contents.
proof fn lemma_table_holds_same(
    t: Seq<TableRowData>,
    keys: Set<RowKey>,
    f1: spec_fn(RowKey, int) -> int,
    f2: spec_fn(RowKey, int) -> int,
    n: int,
)
    requires
        table_holds(t, keys, f1, n),
        forall|k: RowKey, d: int| #[trigger] f1(k, d) == f2(k, d),
    ensures
        table_holds(t, keys, f2, n),
{
    assert forall|j: int, d: int| 0 <= j < t.len() && 0 <= d < n implies #[trigger] t[j].values[d]
        == f2(t[j].key, d) by {
        assert(f1(t[j].key, d) == f2(t[j].key, d));
    }
}

/// The timesheet's table of the entries (`is_timesheet_table`): each entry's
/// time, until the next entry starts, booked to its project's row and its
/// comment's row in the column of its day.
pub fn book_entries(entries: &Vec<LogEntry>, options: TimesheetOptions, days: TimesheetDays) -> (r:
    Vec<TableRow>)
    requires
        is_time_ordered(entry_views(entries@)),
        forall|k: int| 0 <= k < entries.len() ==> stamp_ok(#[trigger] entries@[k].stamp),
    ensures
        ({
            let es = entry_views(entries@);
            &&& is_timesheet_table(rows_of(r@), es, options, days)
            &&& spent(es, interval_count(es), options, days) < cell_bound()
        }),
{
    let ghost es = entry_views(entries@);
    let ncols: usize = if options.format == TimesheetFormat::Recent {
        2
    } else {
        7
    };
    let n: usize = if entries.len() == 0 {
        0
    } else {
        entries.len() - 1
    };
    let no_comment: Vec<char> = Vec::new();
    let mut table: Vec<TableRow> = Vec::new();
    let mut i: usize = 0;
    proof {
        assert(filled_keys(es, 0, options, days) =~= Set::<RowKey>::empty());
        assert(table_mass(rows_of(table@)) == 0) by {
            assert(rows_of(table@).map_values(|r: TableRowData| crate::timesheet_table::row_weight(r))
                =~= Seq::<int>::empty());
        }
    }
    while i < n
        invariant
            es == entry_views(entries@),
            n == interval_count(es),
            i <= n,
            ncols == column_count(options),
            no_comment@ == Seq::<char>::empty(),
            is_time_ordered(es),
            forall|k: int| 0 <= k < entries.len() ==> stamp_ok(#[trigger] entries@[k].stamp),
            table_holds(
                rows_of(table@),
                filled_keys(es, i as int, options, days),
                |k: RowKey, c: int| cell(es, i as int, options, days, k, c),
                ncols as int,
            ),
            table_mass(rows_of(table@)) == spent(es, i as int, options, days),
        decreases n - i,
    {
        let ghost keys = filled_keys(es, i as int, options, days);
        let ghost f = |k: RowKey, c: int| cell(es, i as int, options, days, k, c);
        let ghost h = |k: RowKey, c: int| cell(es, i + 1, options, days, k, c);
        proof {
            lemma_spent_le_span(es, i as int, options, days);
            assert(es[i as int] == entries@[i as int]@);
        }
        match slot_of(entries, i, options, days) {
            Some((y, w, col, amount)) => {
                let ghost pk = project_key(es, i as int, y as int, w as int);
                let ghost ck = comment_key(es, i as int, y as int, w as int);
                proof {
                    assert forall|k: RowKey, d: int| !keys.contains(k) implies #[trigger] f(k, d) == 0 by {
                        lemma_cell_outside_keys(es, i as int, options, days, k, d);
                    }
                    assert forall|k: RowKey| #[trigger] f(k, col as int) + amount <= u128::MAX by {
                        lemma_cell_le_spent(es, i as int, options, days, k, col as int);
                    }
                }
                if entries[i].comment.len() == 0 {
                    proof {
                        assert(es[i as int].comment =~= Seq::<char>::empty());
                        assert(ck == pk);
                        assert forall|k: RowKey, d: int| #[trigger] h(k, d) == f(k, d) + if k == pk && d
                            == col {
                            amount as int
                        } else {
                            0int
                        } by {}
                        assert(filled_keys(es, i + 1, options, days) =~= keys.insert(pk));
                    }
                    add_to_table(
                        &mut table,
                        y,
                        w,
                        entries[i].project.as_slice(),
                        no_comment.as_slice(),
                        col,
                        amount,
                        ncols,
                        Ghost(keys),
                        Ghost(f),
                        Ghost(h),
                    );
                } else {
                    let ghost g = |k: RowKey, c: int|
                        f(k, c) + if k == pk && c == col {
                            amount as int
                        } else {
                            0int
                        };
                    proof {
                        assert(ck != pk) by {
                            assert(ck.comment.len() != pk.comment.len());
                        }
                    }
                    add_to_table(
                        &mut table,
                        y,
                        w,
                        entries[i].project.as_slice(),
                        no_comment.as_slice(),
                        col,
                        amount,
                        ncols,
                        Ghost(keys),
                        Ghost(f),
                        Ghost(g),
                    );
                    proof {
                        assert forall|k: RowKey, d: int| !keys.insert(pk).contains(k) implies #[trigger] g(
                            k,
                            d,
                        ) == 0 by {
                            lemma_cell_outside_keys(es, i as int, options, days, k, d);
                        }
                        assert forall|k: RowKey| #[trigger] g(k, col as int) + amount <= u128::MAX by {
                            lemma_cell_le_spent(es, i as int, options, days, k, col as int);
                        }
                        assert forall|k: RowKey, d: int| #[trigger] h(k, d) == g(k, d) + if k == ck && d
                            == col {
                            amount as int
                        } else {
                            0int
                        } by {}
                        assert(filled_keys(es, i + 1, options, days) =~= keys.insert(pk).insert(ck));
                    }
                    add_to_table(
                        &mut table,
                        y,
                        w,
                        entries[i].project.as_slice(),
                        entries[i].comment.as_slice(),
                        col,
                        amount,
                        ncols,
                        Ghost(keys.insert(pk)),
                        Ghost(g),
                        Ghost(h),
                    );
                }
            },
            None => {
                proof {
                    assert forall|k: RowKey, d: int| #[trigger] f(k, d) == h(k, d) by {}
                    lemma_table_holds_same(rows_of(table@), keys, f, h, ncols as int);
                }
            },
        }
        i += 1;
    }
    proof {
        if es.len() > 0 {
            lemma_spent_le_span(es, n as int, options, days);
        }
    }
    table
}

// ---------------------------------------------------------------------------
// What the table holds
// ---------------------------------------------------------------------------

/// Rows once filled stay filled.
pub proof fn lemma_filled_keys_grow(
    es: Seq<EntryData>,
    m: int,
    n: int,
    o: TimesheetOptions,
    days: TimesheetDays,
    k: RowKey,
)
    requires
        0 <= m <= n,
        filled_keys(es, m, o, days).contains(k),
    ensures
        filled_keys(es, n, o, days).contains(k),
    decreases n - m,
{
    if m < n {
        lemma_filled_keys_grow(es, m, n - 1, o, days, k);
    }
}

/// A filled row was filled by some booked entry.
pub proof fn lemma_filled_key_booked(
    es: Seq<EntryData>,
    n: int,
    o: TimesheetOptions,
    days: TimesheetDays,
    k: RowKey,
)
    requires
        filled_keys(es, n, o, days).contains(k),
    ensures
        exists|i: int| 0 <= i < n && (#[trigger] slot(es, i, o, days)) is Some,
    decreases n,
{
    if n > 0 {
        if slot(es, n - 1, o, days) is None {
            lemma_filled_key_booked(es, n - 1, o, days, k);
        }
    }
}

/// Every filled row lies on the sheet of an entry that is booked.
proof fn lemma_filled_key_sheet(es: Seq<EntryData>, n: int, o: TimesheetOptions, days: TimesheetDays, k: RowKey)
    requires
        filled_keys(es, n, o, days).contains(k),
    ensures
        exists|i: int|
            0 <= i < n && (#[trigger] slot(es, i, o, days)) is Some && k.year == (slot(es, i, o, days)->0).0
                && k.week == (slot(es, i, o, days)->0).1,
    decreases n,
{
    if n > 0 {
        if filled_keys(es, n - 1, o, days).contains(k) {
            lemma_filled_key_sheet(es, n - 1, o, days, k);
            let i = choose|i: int|
                0 <= i < n - 1 && (#[trigger] slot(es, i, o, days)) is Some && k.year == (slot(es, i, o, days)->0).0
                    && k.week == (slot(es, i, o, days)->0).1;
            assert(0 <= i < n);
        } else {
            assert(slot(es, n - 1, o, days) is Some);
        }
    }
}

/// A full timesheet of this week holds this ISO week and nothing else:
/// every row lies on the sheet of today's ISO year and week, and every
/// entry of that week with a project and a positive length has its
/// project's row. An entry of another week, however recent, books nothing.
pub proof fn lemma_week_range_is_this_iso_week(
    t: Seq<TableRowData>,
    es: Seq<EntryData>,
    o: TimesheetOptions,
    days: TimesheetDays,
)
    requires
        is_timesheet_table(t, es, o, days),
        o.format == TimesheetFormat::Full,
        o.range == TimesheetRange::Week,
    ensures
        forall|j: int|
            0 <= j < t.len() ==> (#[trigger] t[j]).key.year == days.today.iso_year && t[j].key.week
                == days.today.iso_week,
        forall|i: int|
            0 <= i < interval_count(es) && es[i].project.len() > 0 && instant(es[i + 1].stamp) > instant(
                es[i].stamp,
            ) && (#[trigger] es[i].stamp.date).iso_year == days.today.iso_year && es[i].stamp.date.iso_week
                == days.today.iso_week ==> has_key(
                t,
                RowKey {
                    year: days.today.iso_year as int,
                    week: days.today.iso_week as int,
                    project: es[i].project,
                    comment: Seq::<char>::empty(),
                },
            ),
        forall|i: int|
            0 <= i < interval_count(es) && ((#[trigger] es[i].stamp.date).iso_year != days.today.iso_year
                || es[i].stamp.date.iso_week != days.today.iso_week) ==> booked(es, i, o, days) == 0,
{
    let n = interval_count(es);
    assert forall|j: int| 0 <= j < t.len() implies (#[trigger] t[j]).key.year == days.today.iso_year
        && t[j].key.week == days.today.iso_week by {
        assert(has_key(t, t[j].key));
        lemma_filled_key_sheet(es, n, o, days, t[j].key);
    }
    assert forall|i: int|
        0 <= i < n && es[i].project.len() > 0 && instant(es[i + 1].stamp) > instant(es[i].stamp)
            && (#[trigger] es[i].stamp.date).iso_year == days.today.iso_year && es[i].stamp.date.iso_week
            == days.today.iso_week implies has_key(
        t,
        RowKey {
            year: days.today.iso_year as int,
            week: days.today.iso_week as int,
            project: es[i].project,
            comment: Seq::<char>::empty(),
        },
    ) by {
        let k = RowKey {
            year: days.today.iso_year as int,
            week: days.today.iso_week as int,
            project: es[i].project,
            comment: Seq::<char>::empty(),
        };
        assert(slot(es, i, o, days) is Some);
        assert(k == project_key(es, i, days.today.iso_year as int, days.today.iso_week as int));
        assert(filled_keys(es, i + 1, o, days).contains(k));
        lemma_filled_keys_grow(es, i + 1, n, o, days, k);
    }
}

proof fn lemma_booking_ignores_rounding_upto(
    es: Seq<EntryData>,
    n: int,
    o1: TimesheetOptions,
    o2: TimesheetOptions,
    days: TimesheetDays,
)
    requires
        o1.range == o2.range,
        o1.format == o2.format,
    ensures
        filled_keys(es, n, o1, days) == filled_keys(es, n, o2, days),
        spent(es, n, o1, days) == spent(es, n, o2, days),
        forall|k: RowKey, c: int| #[trigger] cell(es, n, o1, days, k, c) == cell(es, n, o2, days, k, c),
    decreases n,
{
    if n > 0 {
        lemma_booking_ignores_rounding_upto(es, n - 1, o1, o2, days);
        assert(slot(es, n - 1, o1, days) == slot(es, n - 1, o2, days));
        assert forall|k: RowKey, c: int| #[trigger] cell(es, n, o1, days, k, c) == cell(es, n, o2, days, k, c) by {
            assert(cell(es, n - 1, o1, days, k, c) == cell(es, n - 1, o2, days, k, c));
        }
    }
}

/// Whether hours are rounded has no part in what the table holds: a
/// table of the entries for some options is their table for the same range
/// and format with rounding on or off.
pub proof fn lemma_timesheet_table_ignores_rounding(
    t: Seq<TableRowData>,
    es: Seq<EntryData>,
    o1: TimesheetOptions,
    o2: TimesheetOptions,
    days: TimesheetDays,
)
    requires
        o1.range == o2.range,
        o1.format == o2.format,
    ensures
        is_timesheet_table(t, es, o1, days) == is_timesheet_table(t, es, o2, days),
        forall|i: int| #[trigger] slot(es, i, o1, days) == slot(es, i, o2, days),
{
    let n = interval_count(es);
    lemma_booking_ignores_rounding_upto(es, n, o1, o2, days);
    let f1 = |k: RowKey, c: int| cell(es, n, o1, days, k, c);
    let f2 = |k: RowKey, c: int| cell(es, n, o2, days, k, c);
    assert(f1 =~= f2);
    assert forall|i: int| #[trigger] slot(es, i, o1, days) == slot(es, i, o2, days) by {}
}

/// The table is empty exactly when no entry is booked.
pub proof fn lemma_table_empty_iff_nothing_booked(
    t: Seq<TableRowData>,
    es: Seq<EntryData>,
    o: TimesheetOptions,
    days: TimesheetDays,
)
    requires
        is_timesheet_table(t, es, o, days),
    ensures
        (t.len() == 0) == (forall|i: int|
            0 <= i < interval_count(es) ==> (#[trigger] slot(es, i, o, days)) is None),
{
    let n = interval_count(es);
    if t.len() > 0 {
        assert(crate::timesheet_table::has_key(t, t[0].key));
        lemma_filled_key_booked(es, n, o, days, t[0].key);
    } else {
        assert forall|i: int| 0 <= i < n implies (#[trigger] slot(es, i, o, days)) is None by {
            if slot(es, i, o, days) is Some {
                let (y, w, c) = slot(es, i, o, days)->0;
                let k = project_key(es, i, y, w);
                assert(filled_keys(es, i + 1, o, days).contains(k));
                lemma_filled_keys_grow(es, i + 1, n, o, days, k);
                assert(crate::timesheet_table::has_key(t, k));
            }
        }
    }
}

/// Every value of the table is below the bound the rounding takes.
pub proof fn lemma_table_values_bounded(
    t: Seq<TableRowData>,
    es: Seq<EntryData>,
    o: TimesheetOptions,
    days: TimesheetDays,
)
    requires
        is_timesheet_table(t, es, o, days),
        spent(es, interval_count(es), o, days) < cell_bound(),
    ensures
        forall|j: int, c: int|
            0 <= j < t.len() && 0 <= c < column_count(o) ==> #[trigger] t[j].values[c] < cell_bound(),
{
    let n = interval_count(es);
    assert forall|j: int, c: int| 0 <= j < t.len() && 0 <= c < column_count(o) implies #[trigger] t[j].values[c]
        < cell_bound() by {
        lemma_cell_le_spent(es, n, o, days, t[j].key, c);
    }
}

} // verus!

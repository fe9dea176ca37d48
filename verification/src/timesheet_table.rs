//! The timesheet's table of logged time: one row per sheet, project and
//! comment, kept ordered by (year, week, project, comment). A project row has
//! an empty comment, so it comes right before the rows of its comments.
use vstd::prelude::*;

use crate::rounding::{as_ints, lemma_seq_sum_update, seq_sum};
use crate::text::{
    append_chars, chars_equal, chars_lt, lemma_text_lt_asymmetric, lemma_text_lt_irreflexive,
    lemma_text_lt_total, lemma_text_lt_transitive, text_lt,
};

verus! {

/// Which row a time belongs to: the sheet (ISO year and week; 0 and 0 for
/// the two-day overview), the project and the comment (empty for the
/// project's own row).
pub struct RowKey {
    pub year: int,
    pub week: int,
    pub project: Seq<char>,
    pub comment: Seq<char>,
}

/// The order of the table's rows.
pub open spec fn key_lt(a: RowKey, b: RowKey) -> bool {
    ||| a.year < b.year
    ||| (a.year == b.year && a.week < b.week)
    ||| (a.year == b.year && a.week == b.week && text_lt(a.project, b.project))
    ||| (a.year == b.year && a.week == b.week && a.project == b.project && text_lt(
        a.comment,
        b.comment,
    ))
}

/// A table row as values.
pub struct TableRowData {
    pub key: RowKey,
    pub values: Seq<u128>,
}

/// A row of the table: the seconds per day column for one key.
pub struct TableRow {
    pub year: i32,
    pub week: u32,
    pub project: Vec<char>,
    pub comment: Vec<char>,
    pub values: Vec<u128>,
}

impl View for TableRow {
    type V = TableRowData;

    open spec fn view(&self) -> TableRowData {
        TableRowData {
            key: RowKey {
                year: self.year as int,
                week: self.week as int,
                project: self.project@,
                comment: self.comment@,
            },
            values: self.values@,
        }
    }
}

/// The rows held by a table.
pub open spec fn rows_of(t: Seq<TableRow>) -> Seq<TableRowData> {
    t.map_values(|r: TableRow| r@)
}

/// Rows in strictly increasing key order.
pub open spec fn keys_sorted(t: Seq<TableRowData>) -> bool {
    forall|a: int, b: int| 0 <= a < b < t.len() ==> key_lt(#[trigger] t[a].key, #[trigger] t[b].key)
}

/// Whether a key belongs to a row.
pub open spec fn has_key(t: Seq<TableRowData>, k: RowKey) -> bool {
    exists|j: int| 0 <= j < t.len() && #[trigger] t[j].key == k
}

/// The seconds a row adds to its sheet's totals: all of a project row, none
/// of a comment row (its time is already in its project's row).
pub open spec fn row_weight(r: TableRowData) -> int {
    if r.key.comment.len() == 0 {
        seq_sum(as_ints(r.values))
    } else {
        0
    }
}

/// The seconds the project rows of a table hold together.
pub open spec fn table_mass(t: Seq<TableRowData>) -> int {
    seq_sum(t.map_values(|r: TableRowData| row_weight(r)))
}

/// `t` holds, for every key of `keys` and no other, a row whose values are
/// `f` of the key and column, one value per column.
pub open spec fn table_holds(
    t: Seq<TableRowData>,
    keys: Set<RowKey>,
    f: spec_fn(RowKey, int) -> int,
    ncols: int,
) -> bool {
    &&& keys_sorted(t)
    &&& forall|j: int| 0 <= j < t.len() ==> (#[trigger] t[j]).values.len() == ncols
    &&& forall|j: int, d: int|
        0 <= j < t.len() && 0 <= d < ncols ==> #[trigger] t[j].values[d] == f(t[j].key, d)
    &&& forall|k: RowKey| keys.contains(k) <==> has_key(t, k)
}

// ---------------------------------------------------------------------------
// Lemmas
// ---------------------------------------------------------------------------

pub proof fn lemma_key_lt_irreflexive(a: RowKey)
    ensures
        !key_lt(a, a),
{
    lemma_text_lt_irreflexive(a.project);
    lemma_text_lt_irreflexive(a.comment);
}

pub proof fn lemma_key_lt_transitive(a: RowKey, b: RowKey, c: RowKey)
    requires
        key_lt(a, b),
        key_lt(b, c),
    ensures
        key_lt(a, c),
{
    if a.year == b.year && b.year == c.year && a.week == b.week && b.week == c.week {
        if text_lt(a.project, b.project) && text_lt(b.project, c.project) {
            lemma_text_lt_transitive(a.project, b.project, c.project);
        }
        if a.project == b.project && b.project == c.project {
            lemma_text_lt_irreflexive(a.project);
            lemma_text_lt_transitive(a.comment, b.comment, c.comment);
        }
    }
}

pub proof fn lemma_key_lt_total(a: RowKey, b: RowKey)
    requires
        a != b,
    ensures
        key_lt(a, b) || key_lt(b, a),
{
    if a.year == b.year && a.week == b.week {
        if a.project != b.project {
            lemma_text_lt_total(a.project, b.project);
        } else {
            lemma_text_lt_total(a.comment, b.comment);
        }
    }
}

pub proof fn lemma_key_lt_asymmetric(a: RowKey, b: RowKey)
    requires
        key_lt(a, b),
    ensures
        !key_lt(b, a),
{
    if a.year == b.year && a.week == b.week {
        if text_lt(a.project, b.project) {
            lemma_text_lt_asymmetric(a.project, b.project);
        } else if a.project == b.project {
            lemma_text_lt_irreflexive(a.project);
            lemma_text_lt_asymmetric(a.comment, b.comment);
        }
    }
}

pub proof fn lemma_seq_sum_insert(s: Seq<int>, p: int, x: int)
    requires
        0 <= p <= s.len(),
    ensures
        seq_sum(s.insert(p, x)) == seq_sum(s) + x,
    decreases s.len(),
{
    if p == s.len() {
        assert(s.insert(p, x) =~= s.push(x));
        assert(s.push(x).drop_last() =~= s);
    } else {
        assert(s.insert(p, x).drop_last() =~= s.drop_last().insert(p, x));
        assert(s.insert(p, x).last() == s.last());
        lemma_seq_sum_insert(s.drop_last(), p, x);
    }
}

pub proof fn lemma_seq_sum_zeros(s: Seq<int>)
    requires
        forall|k: int| 0 <= k < s.len() ==> s[k] == 0,
    ensures
        seq_sum(s) == 0,
    decreases s.len(),
{
    if s.len() > 0 {
        lemma_seq_sum_zeros(s.drop_last());
    }
}

// ---------------------------------------------------------------------------
// Executable table
// ---------------------------------------------------------------------------

/// Copies of the characters `cs`.
fn chars_vec(cs: &[char]) -> (r: Vec<char>)
    ensures
        r@ == cs@,
{
    let mut r: Vec<char> = Vec::new();
    append_chars(&mut r, cs);
    r
}

/// Whether the row's key comes before the given key, and whether it is equal.
fn compare_key(r: &TableRow, year: i32, week: u32, project: &[char], comment: &[char]) -> (res: (
    bool,
    bool,
))
    ensures
        res.0 == key_lt(
            r@.key,
            RowKey { year: year as int, week: week as int, project: project@, comment: comment@ },
        ),
        res.1 == (r@.key == RowKey {
            year: year as int,
            week: week as int,
            project: project@,
            comment: comment@,
        }),
{
    if r.year != year {
        return (r.year < year, false);
    }
    if r.week != week {
        return (r.week < week, false);
    }
    let same_project = chars_equal(r.project.as_slice(), project);
    if !same_project {
        proof {
            assert(r@.key.project != project@);
        }
        return (chars_lt(r.project.as_slice(), project), false);
    }
    let same_comment = chars_equal(r.comment.as_slice(), comment);
    let lt = chars_lt(r.comment.as_slice(), comment);
    proof {
        lemma_text_lt_irreflexive(project@);
    }
    (lt, same_comment)
}

proof fn lemma_first_keys_agree(t1: Seq<TableRowData>, t2: Seq<TableRowData>)
    requires
        keys_sorted(t1),
        keys_sorted(t2),
        t1.len() > 0,
        forall|k: RowKey| has_key(t1, k) <==> has_key(t2, k),
    ensures
        t2.len() > 0,
        t1[0].key == t2[0].key,
{
    assert(has_key(t1, t1[0].key));
    let j = choose|j: int| 0 <= j < t2.len() && #[trigger] t2[j].key == t1[0].key;
    assert(has_key(t2, t2[0].key));
    let i = choose|i: int| 0 <= i < t1.len() && #[trigger] t1[i].key == t2[0].key;
    if j > 0 {
        assert(key_lt(t2[0].key, t2[j].key));
        if i > 0 {
            assert(key_lt(t1[0].key, t1[i].key));
            lemma_key_lt_asymmetric(t2[0].key, t1[0].key);
        } else {
            lemma_key_lt_irreflexive(t2[0].key);
        }
    }
}

proof fn lemma_table_keys_unique(t1: Seq<TableRowData>, t2: Seq<TableRowData>)
    requires
        keys_sorted(t1),
        keys_sorted(t2),
        forall|k: RowKey| has_key(t1, k) <==> has_key(t2, k),
    ensures
        t1.len() == t2.len(),
        forall|j: int| 0 <= j < t1.len() ==> #[trigger] t1[j].key == t2[j].key,
    decreases t1.len(),
{
    if t1.len() == 0 {
        if t2.len() > 0 {
            assert(has_key(t2, t2[0].key));
        }
    } else {
        lemma_first_keys_agree(t1, t2);
        let a = t1.drop_first();
        let b = t2.drop_first();
        assert forall|k: RowKey| has_key(a, k) <==> has_key(b, k) by {
            if has_key(a, k) {
                let i = choose|i: int| 0 <= i < a.len() && #[trigger] a[i].key == k;
                assert(t1[i + 1].key == k);
                assert(key_lt(t1[0].key, t1[i + 1].key));
                lemma_key_lt_irreflexive(k);
                assert(has_key(t2, k));
                let j = choose|j: int| 0 <= j < t2.len() && #[trigger] t2[j].key == k;
                assert(j != 0);
                assert(b[j - 1].key == k);
            }
            if has_key(b, k) {
                let j = choose|j: int| 0 <= j < b.len() && #[trigger] b[j].key == k;
                assert(t2[j + 1].key == k);
                assert(key_lt(t2[0].key, t2[j + 1].key));
                lemma_key_lt_irreflexive(k);
                assert(has_key(t1, k));
                let i = choose|i: int| 0 <= i < t1.len() && #[trigger] t1[i].key == k;
                assert(i != 0);
                assert(a[i - 1].key == k);
            }
        }
        lemma_table_keys_unique(a, b);
        assert forall|j: int| 0 <= j < t1.len() implies #[trigger] t1[j].key == t2[j].key by {
            if j > 0 {
                assert(a[j - 1] == t1[j]);
                assert(b[j - 1] == t2[j]);
            }
        }
    }
}

/// A table is determined by what it holds: two tables that each hold the
/// same keys, ordered, with the same values for each key and column, are
/// the same table.
pub proof fn lemma_table_unique(
    t1: Seq<TableRowData>,
    t2: Seq<TableRowData>,
    keys: Set<RowKey>,
    f: spec_fn(RowKey, int) -> int,
    ncols: int,
)
    requires
        table_holds(t1, keys, f, ncols),
        table_holds(t2, keys, f, ncols),
    ensures
        t1 == t2,
{
    lemma_table_keys_unique(t1, t2);
    assert forall|j: int| 0 <= j < t1.len() implies #[trigger] t1[j] == t2[j] by {
        assert(t1[j].key == t2[j].key);
        assert(t1[j].values.len() == ncols && t2[j].values.len() == ncols);
        assert forall|d: int| 0 <= d < ncols implies t1[j].values[d] == t2[j].values[d] by {
            assert(t1[j].values[d] == f(t1[j].key, d));
            assert(t2[j].values[d] == f(t2[j].key, d));
        }
        assert(t1[j].values =~= t2[j].values);
    }
    assert(t1 =~= t2);
}

/// Adds `amount` seconds to column `col` of the row for the key, making the
/// row (zero elsewhere) when the table has none; the table stays ordered.
pub fn add_to_table(
    t: &mut Vec<TableRow>,
    year: i32,
    week: u32,
    project: &[char],
    comment: &[char],
    col: usize,
    amount: u128,
    ncols: usize,
    Ghost(keys): Ghost<Set<RowKey>>,
    Ghost(f): Ghost<spec_fn(RowKey, int) -> int>,
    Ghost(g): Ghost<spec_fn(RowKey, int) -> int>,
)
    requires
        table_holds(rows_of(old(t)@), keys, f, ncols as int),
        col < ncols,
        forall|k: RowKey, d: int| !keys.contains(k) ==> #[trigger] f(k, d) == 0,
        forall|k: RowKey| #[trigger] f(k, col as int) + amount <= u128::MAX,
        forall|k: RowKey, d: int|
            #[trigger] g(k, d) == f(k, d) + if k == (RowKey {
                year: year as int,
                week: week as int,
                project: project@,
                comment: comment@,
            }) && d == col {
                amount as int
            } else {
                0int
            },
    ensures
        ({
            let key = RowKey {
                year: year as int,
                week: week as int,
                project: project@,
                comment: comment@,
            };
            &&& table_holds(rows_of(final(t)@), keys.insert(key), g, ncols as int)
            &&& table_mass(rows_of(final(t)@)) == table_mass(rows_of(old(t)@)) + if comment@.len()
                == 0 {
                amount as int
            } else {
                0int
            }
        }),
{
    let ghost key = RowKey {
        year: year as int,
        week: week as int,
        project: project@,
        comment: comment@,
    };
    let ghost old_rows = rows_of(t@);
    let mut p: usize = 0;
    let mut found = false;
    while p < t.len()
        invariant_except_break
            !found,
        invariant
            key == (RowKey {
                year: year as int,
                week: week as int,
                project: project@,
                comment: comment@,
            }),
            old_rows == rows_of(t@),
            t@ == old(t)@,
            p <= t.len(),
            forall|j: int| 0 <= j < p ==> key_lt(#[trigger] old_rows[j].key, key),
        ensures
            p <= t.len(),
            forall|j: int| 0 <= j < p ==> key_lt(#[trigger] old_rows[j].key, key),
            found ==> p < t.len() && old_rows[p as int].key == key,
            !found ==> p == t.len() || (old_rows[p as int].key != key && !key_lt(
                old_rows[p as int].key,
                key,
            )),
        decreases t.len() - p,
    {
        let (lt, eq) = compare_key(&t[p], year, week, project, comment);
        proof {
            assert(old_rows[p as int] == t@[p as int]@);
        }
        if eq {
            found = true;
            break;
        }
        if !lt {
            break;
        }
        p += 1;
    }
    proof {
        assert(old_rows.len() == t.len());
    }
    if found {
        // The key has a row: add to its column.
        proof {
            assert(old_rows[p as int].key == key);
        }
        let mut values: Vec<u128> = Vec::new();
        let mut d: usize = 0;
        while d < ncols
            invariant
                old_rows == rows_of(t@),
                p < t.len(),
                old_rows[p as int].key == key,
                table_holds(old_rows, keys, f, ncols as int),
                col < ncols,
                forall|k: RowKey| #[trigger] f(k, col as int) + amount <= u128::MAX,
                d <= ncols,
                values.len() == d,
                forall|e: int|
                    0 <= e < d ==> #[trigger] values@[e] == f(key, e) + if e == col {
                        amount as int
                    } else {
                        0int
                    },
            decreases ncols - d,
        {
            let x = t[p].values[d];
            proof {
                assert(old_rows[p as int].values[d as int] == x);
                assert(x == f(key, d as int));
            }
            if d == col {
                values.push(x + amount);
            } else {
                values.push(x);
            }
            d += 1;
        }
        let ghost old_vals = as_ints(old_rows[p as int].values);
        let row = TableRow {
            year,
            week,
            project: chars_vec(project),
            comment: chars_vec(comment),
            values,
        };
        t.set(p, row);
        proof {
            let nr = rows_of(t@);
            assert(nr =~= old_rows.update(p as int, row@));
            assert(as_ints(row@.values) =~= old_vals.update(col as int, old_vals[col as int] + amount));
            lemma_seq_sum_update(old_vals, col as int, old_vals[col as int] + amount);
            let w = old_rows.map_values(|r: TableRowData| row_weight(r));
            assert(nr.map_values(|r: TableRowData| row_weight(r)) =~= w.update(p as int, row_weight(row@)));
            lemma_seq_sum_update(w, p as int, row_weight(row@));
            assert(keys.insert(key) =~= keys);
            assert forall|k: RowKey| keys.insert(key).contains(k) <==> has_key(nr, k) by {
                if has_key(old_rows, k) {
                    let j = choose|j: int| 0 <= j < old_rows.len() && #[trigger] old_rows[j].key == k;
                    assert(nr[j].key == k);
                }
                if has_key(nr, k) {
                    let j = choose|j: int| 0 <= j < nr.len() && #[trigger] nr[j].key == k;
                    assert(old_rows[j].key == k);
                }
            }
            assert forall|a: int, b: int| 0 <= a < b < nr.len() implies key_lt(
                #[trigger] nr[a].key,
                #[trigger] nr[b].key,
            ) by {
                assert(old_rows[a].key == nr[a].key);
                assert(old_rows[b].key == nr[b].key);
            }
            assert forall|j: int, e: int| 0 <= j < nr.len() && 0 <= e < ncols implies #[trigger] nr[j].values[e]
                == g(nr[j].key, e) by {
                if j != p {
                    assert(nr[j] == old_rows[j]);
                    if old_rows[j].key == key {
                        lemma_key_lt_irreflexive(key);
                        if j < p {
                        } else {
                        }
                    }
                }
            }
        }
    } else {
        // No row yet: insert one in order.
        proof {
            if p < old_rows.len() {
                assert(old_rows[p as int].key != key);
                lemma_key_lt_total(old_rows[p as int].key, key);
                assert forall|j: int| p <= j < old_rows.len() implies key_lt(key, #[trigger] old_rows[j].key) by {
                    if j > p {
                        lemma_key_lt_transitive(key, old_rows[p as int].key, old_rows[j].key);
                    }
                }
            }
            assert(!has_key(old_rows, key)) by {
                if has_key(old_rows, key) {
                    let j = choose|j: int| 0 <= j < old_rows.len() && #[trigger] old_rows[j].key == key;
                    lemma_key_lt_irreflexive(key);
                }
            }
        }
        let mut values: Vec<u128> = Vec::new();
        let mut d: usize = 0;
        while d < ncols
            invariant
                col < ncols,
                d <= ncols,
                values.len() == d,
                forall|e: int|
                    0 <= e < d ==> #[trigger] values@[e] == if e == col {
                        amount as int
                    } else {
                        0int
                    },
            decreases ncols - d,
        {
            if d == col {
                values.push(amount);
            } else {
                values.push(0);
            }
            d += 1;
        }
        let row = TableRow {
            year,
            week,
            project: chars_vec(project),
            comment: chars_vec(comment),
            values,
        };
        let ghost rv = row@;
        t.insert(p, row);
        proof {
            let nr = rows_of(t@);
            assert(nr =~= old_rows.insert(p as int, rv));
            old_rows.insert_ensures(p as int, rv);
            let zero = Seq::new(ncols as nat, |e: int| 0int);
            lemma_seq_sum_zeros(zero);
            assert(as_ints(rv.values) =~= zero.update(col as int, amount as int));
            lemma_seq_sum_update(zero, col as int, amount as int);
            let w = old_rows.map_values(|r: TableRowData| row_weight(r));
            assert(nr.map_values(|r: TableRowData| row_weight(r)) =~= w.insert(p as int, row_weight(rv)));
            lemma_seq_sum_insert(w, p as int, row_weight(rv));
            assert forall|k: RowKey| keys.insert(key).contains(k) <==> has_key(nr, k) by {
                if has_key(old_rows, k) {
                    let j = choose|j: int| 0 <= j < old_rows.len() && #[trigger] old_rows[j].key == k;
                    if j < p {
                        assert(nr[j].key == k);
                    } else {
                        assert(nr[j + 1].key == k);
                    }
                }
                if k == key {
                    assert(nr[p as int].key == k);
                }
                if has_key(nr, k) {
                    let j = choose|j: int| 0 <= j < nr.len() && #[trigger] nr[j].key == k;
                    if j < p {
                        assert(old_rows[j].key == k);
                    } else if j > p {
                        assert(old_rows[j - 1].key == k);
                    }
                }
            }
            assert forall|a: int, b: int| 0 <= a < b < nr.len() implies key_lt(
                #[trigger] nr[a].key,
                #[trigger] nr[b].key,
            ) by {
                if b < p {
                } else if a > p {
                    assert(nr[a] == old_rows[a - 1]);
                    assert(nr[b] == old_rows[b - 1]);
                } else if a == p {
                    assert(nr[b] == old_rows[b - 1]);
                } else if b == p {
                } else {
                    assert(nr[b] == old_rows[b - 1]);
                    lemma_key_lt_transitive(nr[a].key, key, nr[b].key);
                }
            }
            assert forall|j: int, e: int| 0 <= j < nr.len() && 0 <= e < ncols implies #[trigger] nr[j].values[e]
                == g(nr[j].key, e) by {
                if j < p {
                    assert(nr[j] == old_rows[j]);
                    lemma_key_lt_irreflexive(key);
                } else if j > p {
                    assert(nr[j] == old_rows[j - 1]);
                    lemma_key_lt_asymmetric(key, old_rows[j - 1].key);
                    lemma_key_lt_irreflexive(key);
                } else {
                    assert(!keys.contains(key));
                }
            }
            assert forall|j: int| 0 <= j < nr.len() implies (#[trigger] nr[j]).values.len() == ncols by {
                if j < p {
                    assert(nr[j] == old_rows[j]);
                } else if j > p {
                    assert(nr[j] == old_rows[j - 1]);
                }
            }
        }
    }
}

} // verus!

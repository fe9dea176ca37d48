//! Half-hour rounding that keeps each day's total: the visible entries of a
//! day add up to the day's total rounded once, instead of losing time to
//! rounding every entry on its own.
use vstd::prelude::*;

use crate::text::string_views;
use crate::timesheet_model::{TimesheetPreview, TimesheetPreviewRow, TimesheetPreviewSheet};

verus! {

/// The sum of a sequence of integers.
pub open spec fn seq_sum(s: Seq<int>) -> int
    decreases s.len(),
{
    if s.len() == 0 {
        0
    } else {
        seq_sum(s.drop_last()) + s.last()
    }
}

/// Unsigned values as integers.
pub open spec fn as_ints(s: Seq<u128>) -> Seq<int> {
    s.map_values(|v: u128| v as int)
}

/// `v` rounded down to a whole half hour.
pub open spec fn floor_half(v: int) -> int {
    (v / 1800) * 1800
}

/// `v` rounded to the nearest half hour, a quarter hour rounding up.
pub open spec fn round_half(v: int) -> int {
    ((v + 900) / 1800) * 1800
}

/// Entry `i` has a claim to an extra half hour before entry `j`: it lost more
/// to rounding down, or as much and comes first.
pub open spec fn ranks_above(v: Seq<int>, i: int, j: int) -> bool {
    ||| v[i] % 1800 > v[j] % 1800
    ||| (v[i] % 1800 == v[j] % 1800 && i < j)
}

/// `r` is the sum-keeping half-hour rounding of `v`: every value is rounded
/// down or up to a half hour, the values add up to the rounded sum of `v`,
/// and the values rounded up are those with the strongest claim.
pub open spec fn is_half_rounding(r: Seq<int>, v: Seq<int>) -> bool {
    &&& r.len() == v.len()
    &&& forall|i: int|
        0 <= i < v.len() ==> #[trigger] r[i] == floor_half(v[i]) || r[i] == floor_half(v[i])
            + 1800
    &&& seq_sum(r) == round_half(seq_sum(v))
    &&& forall|i: int, j: int|
        0 <= i < v.len() && 0 <= j < v.len() && #[trigger] r[i] == floor_half(v[i]) + 1800
            && #[trigger] r[j] == floor_half(v[j]) ==> ranks_above(v, i, j)
}

/// The number of `true` values.
pub open spec fn count_true(s: Seq<bool>) -> int
    decreases s.len(),
{
    if s.len() == 0 {
        0
    } else {
        count_true(s.drop_last()) + if s.last() {
            1int
        } else {
            0int
        }
    }
}

pub proof fn lemma_seq_sum_push(s: Seq<int>, x: int)
    ensures
        seq_sum(s.push(x)) == seq_sum(s) + x,
{
    assert(s.push(x).drop_last() =~= s);
}

pub proof fn lemma_seq_sum_update(s: Seq<int>, i: int, x: int)
    requires
        0 <= i < s.len(),
    ensures
        seq_sum(s.update(i, x)) == seq_sum(s) - s[i] + x,
    decreases s.len(),
{
    if i == s.len() - 1 {
        assert(s.update(i, x).drop_last() =~= s.drop_last());
    } else {
        assert(s.update(i, x).drop_last() =~= s.drop_last().update(i, x));
        lemma_seq_sum_update(s.drop_last(), i, x);
    }
}

/// A sum of non-negative values bounds each of its prefixes.
pub proof fn lemma_prefix_sum_le(s: Seq<int>, i: int)
    requires
        0 <= i <= s.len(),
        forall|k: int| 0 <= k < s.len() ==> s[k] >= 0,
    ensures
        0 <= seq_sum(s.take(i)) <= seq_sum(s),
    decreases s.len(),
{
    if i == s.len() {
        assert(s.take(i) =~= s);
        lemma_sum_nonneg(s);
    } else {
        assert(s.take(i) =~= s.drop_last().take(i));
        lemma_prefix_sum_le(s.drop_last(), i);
    }
}

pub proof fn lemma_sum_nonneg(s: Seq<int>)
    requires
        forall|k: int| 0 <= k < s.len() ==> s[k] >= 0,
    ensures
        seq_sum(s) >= 0,
    decreases s.len(),
{
    if s.len() > 0 {
        lemma_sum_nonneg(s.drop_last());
    }
}

/// Each non-negative value is at most the sum.
pub proof fn lemma_element_le_sum(s: Seq<int>, i: int)
    requires
        0 <= i < s.len(),
        forall|k: int| 0 <= k < s.len() ==> s[k] >= 0,
    ensures
        s[i] <= seq_sum(s),
    decreases s.len(),
{
    lemma_sum_nonneg(s.drop_last());
    if i < s.len() - 1 {
        lemma_element_le_sum(s.drop_last(), i);
    }
}

proof fn lemma_count_true_update(s: Seq<bool>, i: int)
    requires
        0 <= i < s.len(),
        !s[i],
    ensures
        count_true(s.update(i, true)) == count_true(s) + 1,
    decreases s.len(),
{
    if i == s.len() - 1 {
        assert(s.update(i, true).drop_last() =~= s.drop_last());
    } else {
        assert(s.update(i, true).drop_last() =~= s.drop_last().update(i, true));
        lemma_count_true_update(s.drop_last(), i);
    }
}

proof fn lemma_count_true_full(s: Seq<bool>)
    requires
        forall|k: int| 0 <= k < s.len() ==> s[k],
    ensures
        count_true(s) == s.len(),
    decreases s.len(),
{
    if s.len() > 0 {
        lemma_count_true_full(s.drop_last());
    }
}

/// Rounds every value to a half hour so that the values still add up to
/// their sum rounded to a half hour: each value is rounded down, and the
/// half hours that the rounded sum asks for go to the values that lost the
/// most, earlier ones first among equals.
pub fn round_half_preserving_sum(values: &[u128]) -> (r: Vec<u128>)
    requires
        seq_sum(as_ints(values@)) + 1800 <= u128::MAX,
    ensures
        is_half_rounding(as_ints(r@), as_ints(values@)),
{
    let ghost v = as_ints(values@);
    let n = values.len();
    proof {
        assert forall|k: int| 0 <= k < v.len() implies v[k] >= 0 by {}
    }
    proof {
        lemma_prefix_sum_le(v, 0);
    }
    let mut result: Vec<u128> = Vec::new();
    let mut units: u128 = 0;
    let mut lost: u128 = 0;
    let mut i: usize = 0;
    while i < n
        invariant
            n == values.len(),
            v == as_ints(values@),
            forall|k: int| 0 <= k < v.len() ==> v[k] >= 0,
            seq_sum(v) + 1800 <= u128::MAX,
            i <= n,
            result.len() == i,
            forall|k: int| 0 <= k < i ==> result@[k] == floor_half(v[k]),
            units * 1800 + lost == seq_sum(v.take(i as int)),
            seq_sum(as_ints(result@)) == units * 1800,
            lost <= 1799 * i,
            seq_sum(v.take(i as int)) <= seq_sum(v),
        decreases n - i,
    {
        let x = values[i];
        let q = x / 1800;
        let f = q * 1800;
        proof {
            assert(v.take(i + 1) =~= v.take(i as int).push(v[i as int]));
            lemma_seq_sum_push(v.take(i as int), v[i as int]);
            lemma_prefix_sum_le(v, i + 1);
        }
        let ghost before = as_ints(result@);
        result.push(f);
        proof {
            assert(as_ints(result@) =~= before.push(f as int));
            lemma_seq_sum_push(before, f as int);
        }
        units = units + q;
        lost = lost + (x - f);
        i += 1;
    }
    proof {
        assert(v.take(n as int) =~= v);
    }
    let total_units = units;
    let round_units = (units * 1800 + lost + 900) / 1800;
    let increments: usize = (round_units - units) as usize;
    proof {
        assert(increments <= n);
        assert(round_units * 1800 == round_half(seq_sum(v)));
        let fl = as_ints(result@);
        assert forall|k: int| 0 <= k < n implies fl[k] == floor_half(v[k]) by {}
        assert forall|q: int| 0 <= q < n implies v[q] <= seq_sum(v) by {
            lemma_element_le_sum(v, q);
        }
    }
    let mut picked: Vec<bool> = Vec::new();
    let mut k: usize = 0;
    while k < n
        invariant
            k <= n,
            picked.len() == k,
            forall|t: int| 0 <= t < k ==> !picked@[t],
        decreases n - k,
    {
        picked.push(false);
        k += 1;
    }
    proof {
        assert(count_true(picked@) == 0) by {
            lemma_count_false(picked@);
        }
    }
    let mut t: usize = 0;
    while t < increments
        invariant
            n == values.len(),
            v == as_ints(values@),
            forall|q: int| 0 <= q < v.len() ==> v[q] >= 0,
            increments <= n,
            t <= increments,
            picked.len() == n,
            result.len() == n,
            count_true(picked@) == t,
            forall|q: int|
                0 <= q < n ==> result@[q] == floor_half(v[q]) + if picked@[q] {
                    1800int
                } else {
                    0int
                },
            seq_sum(as_ints(result@)) == total_units * 1800 + t * 1800,
            forall|a: int, b: int|
                0 <= a < n && 0 <= b < n && picked@[a] && !picked@[b] ==> ranks_above(v, a, b),
            forall|q: int| 0 <= q < n ==> v[q] <= seq_sum(v),
            seq_sum(v) + 1800 <= u128::MAX,
        decreases increments - t,
    {
        // Find the unpicked entry with the strongest claim.
        proof {
            if forall|q: int| 0 <= q < n ==> picked@[q] {
                lemma_count_true_full(picked@);
            }
        }
        let mut best: usize = n;
        let mut j: usize = 0;
        while j < n
            invariant
                n == values.len(),
                v == as_ints(values@),
                picked.len() == n,
                j <= n,
                best == n || (best < j && !picked@[best as int]),
                best == n ==> forall|q: int| 0 <= q < j ==> picked@[q],
                best < n ==> forall|q: int|
                    0 <= q < j && !picked@[q] && q != best ==> ranks_above(v, best as int, q),
            decreases n - j,
        {
            if !picked[j] {
                if best == n || values[j] % 1800 > values[best] % 1800 {
                    best = j;
                }
            }
            j += 1;
        }
        proof {
            assert(best < n) by {
                if best == n {
                    lemma_count_true_full(picked@);
                }
            }
        }
        let ghost old_result = as_ints(result@);
        let ghost old_picked = picked@;
        proof {
            lemma_element_le_sum(v, best as int);
        }
        let bumped = result[best] + 1800;
        result.set(best, bumped);
        picked.set(best, true);
        proof {
            lemma_count_true_update(old_picked, best as int);
            assert(as_ints(result@) =~= old_result.update(best as int, old_result[best as int] + 1800));
            lemma_seq_sum_update(old_result, best as int, old_result[best as int] + 1800);
        }
        t += 1;
    }
    proof {
        let r = as_ints(result@);
        assert forall|a: int, b: int|
            0 <= a < v.len() && 0 <= b < v.len() && #[trigger] r[a] == floor_half(v[a]) + 1800
                && #[trigger] r[b] == floor_half(v[b]) implies ranks_above(v, a, b) by {
            assert(picked@[a]);
            assert(!picked@[b]);
        }
        assert forall|a: int| 0 <= a < v.len() implies #[trigger] r[a] == floor_half(v[a]) || r[a]
            == floor_half(v[a]) + 1800 by {}
    }
    result
}

proof fn lemma_count_false(s: Seq<bool>)
    requires
        forall|k: int| 0 <= k < s.len() ==> !s[k],
    ensures
        count_true(s) == 0,
    decreases s.len(),
{
    if s.len() > 0 {
        lemma_count_false(s.drop_last());
    }
}


/// The largest value a cell may hold for rounding: 2^64 seconds.
pub open spec fn cell_bound() -> int {
    0x1_0000_0000_0000_0000
}

/// A row of hours for one project (neither a comment nor the totals).
pub open spec fn is_project_row(r: TimesheetPreviewRow) -> bool {
    !r.is_total && !r.is_comment
}

/// The positions of the project rows, in order.
pub open spec fn project_indices(rows: Seq<TimesheetPreviewRow>) -> Seq<int>
    decreases rows.len(),
{
    if rows.len() == 0 {
        Seq::<int>::empty()
    } else {
        let p = project_indices(rows.drop_last());
        if is_project_row(rows.last()) {
            p.push(rows.len() - 1)
        } else {
            p
        }
    }
}

/// The position of the first totals row.
pub open spec fn first_total(rows: Seq<TimesheetPreviewRow>) -> Option<int>
    decreases rows.len(),
{
    if rows.len() == 0 {
        None
    } else {
        match first_total(rows.drop_last()) {
            Some(t) => Some(t),
            None => if rows.last().is_total {
                Some(rows.len() - 1)
            } else {
                None
            },
        }
    }
}

/// The number of day columns: the length of the first totals row.
pub open spec fn value_count(rows: Seq<TimesheetPreviewRow>) -> int {
    match first_total(rows) {
        Some(t) => rows[t].values.len() as int,
        None => 0,
    }
}

/// Column `d` of the project rows.
pub open spec fn column(rows: Seq<TimesheetPreviewRow>, d: int) -> Seq<int> {
    project_indices(rows).map_values(|i: int| rows[i].values@[d] as int)
}

/// A sheet that the rounding can take: every project row has a value for
/// each day column, and the numbers stay within the sizes that fit.
pub open spec fn rows_roundable(rows: Seq<TimesheetPreviewRow>) -> bool {
    &&& value_count(rows) <= 65536
    &&& forall|i: int|
        0 <= i < rows.len() && is_project_row(#[trigger] rows[i]) ==> rows[i].values.len()
            == value_count(rows)
    &&& forall|d: int| 0 <= d < value_count(rows) ==> seq_sum(#[trigger] column(rows, d)) <= cell_bound()
    &&& forall|i: int|
        0 <= i < rows.len() && (#[trigger] rows[i]).is_comment ==> rows[i].values.len() <= 65536
            && forall|k: int| 0 <= k < rows[i].values.len() ==> rows[i].values@[k] <= cell_bound()
}

/// `new` is `old` with its hours rounded to half hours: each day column of the
/// project rows keeps its rounded sum, each comment row keeps its rounded sum,
/// row totals add up the rounded values, and the first totals row holds the
/// column sums of the rounded project rows.
pub open spec fn is_rounded_rows(new: Seq<TimesheetPreviewRow>, old: Seq<TimesheetPreviewRow>) -> bool {
    let vc = value_count(old);
    &&& new.len() == old.len()
    &&& forall|i: int|
        0 <= i < old.len() ==> (#[trigger] new[i]).label@ == old[i].label@ && new[i].is_comment
            == old[i].is_comment && new[i].is_total == old[i].is_total
    &&& forall|d: int| 0 <= d < vc ==> is_half_rounding(#[trigger] column(new, d), column(old, d))
    &&& forall|i: int|
        0 <= i < old.len() && first_total(old) != Some(i) ==> {
            &&& is_project_row(old[i]) ==> (#[trigger] new[i]).values.len() == vc
                && new[i].total == seq_sum(as_ints(new[i].values@))
            &&& old[i].is_comment ==> is_half_rounding(as_ints(new[i].values@), as_ints(old[i].values@))
                && new[i].total == seq_sum(as_ints(new[i].values@))
            &&& old[i].is_total && !old[i].is_comment ==> new[i].values@ == old[i].values@
                && new[i].total == old[i].total
        }
    &&& first_total(old) matches Some(t) ==> {
        &&& new[t].values.len() == vc
        &&& forall|d: int| 0 <= d < vc ==> (#[trigger] new[t].values@[d]) == seq_sum(column(new, d))
        &&& new[t].total == seq_sum(as_ints(new[t].values@))
    }
}

proof fn lemma_project_indices_prefix(rows: Seq<TimesheetPreviewRow>, i: int)
    requires
        0 <= i <= rows.len(),
    ensures
        project_indices(rows.take(i)).len() <= project_indices(rows).len(),
        forall|k: int|
            0 <= k < project_indices(rows.take(i)).len() ==> #[trigger] project_indices(rows)[k]
                == project_indices(rows.take(i))[k],
    decreases rows.len(),
{
    if i < rows.len() {
        assert(rows.take(i) =~= rows.drop_last().take(i));
        lemma_project_indices_prefix(rows.drop_last(), i);
    } else {
        assert(rows.take(i) =~= rows);
    }
}

pub proof fn lemma_project_indices_shape(rows: Seq<TimesheetPreviewRow>)
    ensures
        forall|k: int|
            0 <= k < project_indices(rows).len() ==> 0 <= #[trigger] project_indices(rows)[k]
                < rows.len() && is_project_row(rows[project_indices(rows)[k]]),
    decreases rows.len(),
{
    if rows.len() > 0 {
        lemma_project_indices_shape(rows.drop_last());
        let p = project_indices(rows.drop_last());
        assert forall|k: int| 0 <= k < p.len() implies rows[p[k]] == rows.drop_last()[p[k]] by {}
    }
}

proof fn lemma_project_indices_flags(a: Seq<TimesheetPreviewRow>, b: Seq<TimesheetPreviewRow>)
    requires
        a.len() == b.len(),
        forall|i: int| 0 <= i < a.len() ==> is_project_row(#[trigger] a[i]) == is_project_row(b[i]),
    ensures
        project_indices(a) == project_indices(b),
    decreases a.len(),
{
    if a.len() > 0 {
        lemma_project_indices_flags(a.drop_last(), b.drop_last());
    }
}

proof fn lemma_first_total_flags(a: Seq<TimesheetPreviewRow>, b: Seq<TimesheetPreviewRow>)
    requires
        a.len() == b.len(),
        forall|i: int| 0 <= i < a.len() ==> (#[trigger] a[i]).is_total == b[i].is_total,
    ensures
        first_total(a) == first_total(b),
    decreases a.len(),
{
    if a.len() > 0 {
        lemma_first_total_flags(a.drop_last(), b.drop_last());
    }
}

pub proof fn lemma_first_total_shape(rows: Seq<TimesheetPreviewRow>)
    ensures
        first_total(rows) matches Some(t) ==> 0 <= t < rows.len() && rows[t].is_total,
    decreases rows.len(),
{
    if rows.len() > 0 {
        lemma_first_total_shape(rows.drop_last());
    }
}

/// A sum of values that are each at most `m`.
pub proof fn lemma_sum_le_bound(s: Seq<int>, m: int)
    requires
        m >= 0,
        forall|k: int| 0 <= k < s.len() ==> 0 <= #[trigger] s[k] <= m,
    ensures
        0 <= seq_sum(s) <= s.len() * m,
    decreases s.len(),
{
    if s.len() > 0 {
        lemma_sum_le_bound(s.drop_last(), m);
        let n = s.len();
        assert((n - 1) * m + m == n * m) by (nonlinear_arith);
    }
}

/// The sum of `values`.
pub fn sum_values(values: &[u128]) -> (r: u128)
    requires
        seq_sum(as_ints(values@)) <= u128::MAX,
    ensures
        r == seq_sum(as_ints(values@)),
{
    let ghost v = as_ints(values@);
    let mut acc: u128 = 0;
    let mut i: usize = 0;
    proof {
        assert forall|k: int| 0 <= k < v.len() implies v[k] >= 0 by {}
        lemma_prefix_sum_le(v, 0);
    }
    while i < values.len()
        invariant
            v == as_ints(values@),
            forall|k: int| 0 <= k < v.len() ==> v[k] >= 0,
            seq_sum(v) <= u128::MAX,
            i <= values.len(),
            acc == seq_sum(v.take(i as int)),
        decreases values.len() - i,
    {
        proof {
            assert(v.take(i + 1) =~= v.take(i as int).push(v[i as int]));
            lemma_seq_sum_push(v.take(i as int), v[i as int]);
            lemma_prefix_sum_le(v, i + 1);
        }
        acc = acc + values[i];
        i += 1;
    }
    assert(v.take(values.len() as int) =~= v);
    acc
}

/// The position of the first totals row, if there is one.
fn find_first_total(rows: &Vec<TimesheetPreviewRow>) -> (r: Option<usize>)
    ensures
        r matches Some(t) ==> first_total(rows@) == Some(t as int),
        r is None ==> first_total(rows@) is None,
{
    let mut i: usize = 0;
    while i < rows.len()
        invariant
            i <= rows.len(),
            first_total(rows@.take(i as int)) is None,
        decreases rows.len() - i,
    {
        proof {
            assert(rows@.take(i + 1).drop_last() =~= rows@.take(i as int));
        }
        if rows[i].is_total {
            proof {
                lemma_first_total_prefix(rows@, i + 1);
            }
            return Some(i);
        }
        i += 1;
    }
    assert(rows@.take(rows.len() as int) =~= rows@);
    None
}

proof fn lemma_first_total_prefix(rows: Seq<TimesheetPreviewRow>, i: int)
    requires
        0 <= i <= rows.len(),
        first_total(rows.take(i)) is Some,
    ensures
        first_total(rows) == first_total(rows.take(i)),
    decreases rows.len(),
{
    if i < rows.len() {
        assert(rows.take(i) =~= rows.drop_last().take(i));
        lemma_first_total_prefix(rows.drop_last(), i);
    } else {
        assert(rows.take(i) =~= rows);
    }
}

/// The positions of the project rows (`project_indices`).
fn collect_project_indices(rows: &Vec<TimesheetPreviewRow>) -> (r: Vec<usize>)
    ensures
        r@.map_values(|k: usize| k as int) == project_indices(rows@),
{
    let mut r: Vec<usize> = Vec::new();
    let mut i: usize = 0;
    while i < rows.len()
        invariant
            i <= rows.len(),
            r@.map_values(|k: usize| k as int) == project_indices(rows@.take(i as int)),
        decreases rows.len() - i,
    {
        proof {
            assert(rows@.take(i + 1).drop_last() =~= rows@.take(i as int));
            assert(rows@.take(i + 1).last() == rows@[i as int]);
        }
        if !rows[i].is_total && !rows[i].is_comment {
            let ghost before = r@;
            r.push(i);
            proof {
                assert(r@.map_values(|k: usize| k as int) =~= before.map_values(|k: usize| k as int).push(
                    i as int,
                ));
            }
        }
        i += 1;
    }
    assert(rows@.take(rows.len() as int) =~= rows@);
    r
}

/// A copy of `v`.
pub fn copy_values(v: &Vec<u128>) -> (r: Vec<u128>)
    ensures
        r@ == v@,
{
    let mut r: Vec<u128> = Vec::new();
    let mut i: usize = 0;
    while i < v.len()
        invariant
            i <= v.len(),
            r@ == v@.take(i as int),
        decreases v.len() - i,
    {
        r.push(v[i]);
        assert(v@.take(i + 1) =~= v@.take(i as int).push(v@[i as int]));
        i += 1;
    }
    assert(v@.take(v.len() as int) =~= v@);
    r
}

/// The rows of a sheet with their hours rounded to half hours
/// (`is_rounded_rows`).
pub fn round_rows(rows: &Vec<TimesheetPreviewRow>) -> (r: Vec<TimesheetPreviewRow>)
    requires
        rows_roundable(rows@),
    ensures
        is_rounded_rows(r@, rows@),
{
    let n = rows.len();
    let total_pos = find_first_total(rows);
    proof {
        lemma_first_total_shape(rows@);
        lemma_project_indices_shape(rows@);
    }
    let vc: usize = match total_pos {
        Some(t) => rows[t].values.len(),
        None => 0,
    };
    let pidx = collect_project_indices(rows);
    let ghost pi = project_indices(rows@);
    proof {
        assert(pidx@.len() == pi.len());
        assert forall|k: int| 0 <= k < pi.len() implies pidx@[k] as int == #[trigger] pi[k] by {
            assert(pidx@.map_values(|q: usize| q as int)[k] == pi[k]);
        }
    }
    // Round each day column of the project rows.
    let mut cols: Vec<Vec<u128>> = Vec::new();
    let mut col_sums: Vec<u128> = Vec::new();
    let mut d: usize = 0;
    while d < vc
        invariant
            n == rows.len(),
            rows_roundable(rows@),
            vc == value_count(rows@),
            pi == project_indices(rows@),
            pidx@.len() == pi.len(),
            forall|k: int| 0 <= k < pi.len() ==> pidx@[k] as int == #[trigger] pi[k],
            forall|k: int|
                0 <= k < pi.len() ==> 0 <= #[trigger] pi[k] < rows.len() && is_project_row(
                    rows@[pi[k]],
                ),
            d <= vc,
            cols.len() == d,
            col_sums.len() == d,
            forall|e: int|
                0 <= e < d ==> is_half_rounding(as_ints(#[trigger] cols@[e]@), column(rows@, e)),
            forall|e: int| 0 <= e < d ==> #[trigger] col_sums@[e] == seq_sum(as_ints(cols@[e]@)),
            forall|e: int| 0 <= e < d ==> #[trigger] col_sums@[e] <= cell_bound() + 900,
        decreases vc - d,
    {
        let mut col: Vec<u128> = Vec::new();
        let mut k: usize = 0;
        while k < pidx.len()
            invariant
                n == rows.len(),
                rows_roundable(rows@),
                vc == value_count(rows@),
                d < vc,
                pi == project_indices(rows@),
                pidx@.len() == pi.len(),
                forall|q: int| 0 <= q < pi.len() ==> pidx@[q] as int == #[trigger] pi[q],
                forall|q: int|
                    0 <= q < pi.len() ==> 0 <= #[trigger] pi[q] < rows.len() && is_project_row(
                        rows@[pi[q]],
                    ),
                k <= pidx.len(),
                as_ints(col@) == column(rows@, d as int).take(k as int),
            decreases pidx.len() - k,
        {
            let idx = pidx[k];
            proof {
                assert(pi[k as int] == idx as int);
                assert(is_project_row(rows@[idx as int]));
            }
            let x = rows[idx].values[d];
            proof {
                assert(column(rows@, d as int)[k as int] == x as int);
            }
            let ghost before = as_ints(col@);
            col.push(x);
            proof {
                assert(as_ints(col@) =~= before.push(x as int));
                assert(column(rows@, d as int).take(k + 1) =~= column(rows@, d as int).take(k as int).push(
                    x as int,
                ));
            }
            k += 1;
        }
        proof {
            assert(column(rows@, d as int).take(pi.len() as int) =~= column(rows@, d as int));
            assert(seq_sum(column(rows@, d as int)) <= cell_bound());
        }
        let rc = round_half_preserving_sum(col.as_slice());
        proof {
            let c = column(rows@, d as int);
            assert(seq_sum(as_ints(rc@)) == round_half(seq_sum(c)));
        }
        let sum = sum_values(rc.as_slice());
        cols.push(rc);
        col_sums.push(sum);
        d += 1;
    }
    // Build the rounded rows.
    let mut out: Vec<TimesheetPreviewRow> = Vec::new();
    let mut k: usize = 0;
    let mut i: usize = 0;
    while i < n
        invariant
            n == rows.len(),
            rows_roundable(rows@),
            vc == value_count(rows@),
            total_pos matches Some(t) ==> first_total(rows@) == Some(t as int),
            total_pos matches Some(t) ==> t < n && rows@[t as int].is_total,
            total_pos is None ==> first_total(rows@) is None,
            pi == project_indices(rows@),
            pidx@.len() == pi.len(),
            forall|q: int| 0 <= q < pi.len() ==> pidx@[q] as int == #[trigger] pi[q],
            cols.len() == vc,
            col_sums.len() == vc,
            forall|e: int|
                0 <= e < vc ==> is_half_rounding(as_ints(#[trigger] cols@[e]@), column(rows@, e)),
            forall|e: int| 0 <= e < vc ==> #[trigger] col_sums@[e] == seq_sum(as_ints(cols@[e]@)),
            forall|e: int| 0 <= e < vc ==> #[trigger] col_sums@[e] <= cell_bound() + 900,
            i <= n,
            out.len() == i,
            k == project_indices(rows@.take(i as int)).len(),
            k <= pi.len(),
            forall|q: int|
                0 <= q < i ==> (#[trigger] out@[q]).label@ == rows@[q].label@ && out@[q].is_comment
                    == rows@[q].is_comment && out@[q].is_total == rows@[q].is_total,
            forall|q: int|
                0 <= q < i && first_total(rows@) != Some(q) ==> {
                    &&& is_project_row(rows@[q]) ==> (#[trigger] out@[q]).values.len() == vc
                        && out@[q].total == seq_sum(as_ints(out@[q].values@))
                    &&& rows@[q].is_comment ==> is_half_rounding(
                        as_ints(out@[q].values@),
                        as_ints(rows@[q].values@),
                    ) && out@[q].total == seq_sum(as_ints(out@[q].values@))
                    &&& rows@[q].is_total && !rows@[q].is_comment ==> out@[q].values@
                        == rows@[q].values@ && out@[q].total == rows@[q].total
                },
            forall|q: int, e: int|
                0 <= q < i && is_project_row(rows@[q]) && 0 <= e < vc ==> (#[trigger] out@[q]).values@[e]
                    == #[trigger] cols@[e]@[project_rank(rows@, q)],
            forall|q: int|
                0 <= q < i && first_total(rows@) == Some(q) ==> (#[trigger] out@[q]).values@
                    == col_sums@ && out@[q].total == seq_sum(as_ints(col_sums@)),
        decreases n - i,
    {
        let row = &rows[i];
        proof {
            assert(rows@.take(i + 1).drop_last() =~= rows@.take(i as int));
            assert(rows@.take(i + 1).last() == rows@[i as int]);
            lemma_project_indices_prefix(rows@, i + 1);
            lemma_project_indices_prefix(rows@, i as int);
            lemma_project_indices_shape(rows@);
        }
        let is_first_total = match total_pos {
            Some(t) => t == i,
            None => false,
        };
        let (values, total) = if is_first_total {
            let values = copy_values(&col_sums);
            proof {
                lemma_sum_le_bound(as_ints(values@), cell_bound() + 900);
                assert(vc * (cell_bound() + 900) <= 65536 * (cell_bound() + 900)) by (nonlinear_arith)
                    requires vc <= 65536;
            }
            let total = sum_values(values.as_slice());
            (values, total)
        } else if row.is_comment {
            proof {
                lemma_sum_le_bound(as_ints(row.values@), cell_bound());
                assert(row.values.len() * cell_bound() <= 65536 * cell_bound()) by (nonlinear_arith)
                    requires row.values.len() <= 65536;
            }
            let values = round_half_preserving_sum(row.values.as_slice());
            let total = sum_values(values.as_slice());
            (values, total)
        } else if !row.is_total {
            proof {
                assert(project_indices(rows@.take(i + 1)) == project_indices(rows@.take(i as int)).push(i as int));
                assert(k < pi.len());
                assert(pi[k as int] == i as int);
            }
            let mut values: Vec<u128> = Vec::new();
            let mut e: usize = 0;
            while e < vc
                invariant
                    vc == value_count(rows@),
                    rows_roundable(rows@),
                    pi == project_indices(rows@),
                    pidx@.len() == pi.len(),
                    i < n,
                    n == rows.len(),
                    k == project_indices(rows@.take(i as int)).len(),
                    project_indices(rows@.take(i + 1)) == project_indices(rows@.take(i as int)).push(
                        i as int,
                    ),
                    cols.len() == vc,
                    k < pi.len(),
                    forall|f: int|
                        0 <= f < vc ==> is_half_rounding(
                            as_ints(#[trigger] cols@[f]@),
                            column(rows@, f),
                        ),
                    forall|f: int| 0 <= f < vc ==> #[trigger] col_sums@[f] == seq_sum(as_ints(cols@[f]@)),
                    forall|f: int| 0 <= f < vc ==> #[trigger] col_sums@[f] <= cell_bound() + 900,
                    col_sums.len() == vc,
                    e <= vc,
                    values.len() == e,
                    forall|f: int| 0 <= f < e ==> #[trigger] values@[f] == cols@[f]@[k as int],
                    forall|f: int| 0 <= f < e ==> #[trigger] values@[f] <= cell_bound() + 1800,
                decreases vc - e,
            {
                proof {
                    assert(is_half_rounding(as_ints(cols@[e as int]@), column(rows@, e as int)));
                    assert(column(rows@, e as int).len() == pi.len());
                    let c = column(rows@, e as int);
                    let rc = as_ints(cols@[e as int]@);
                    assert(rc[k as int] == floor_half(c[k as int]) || rc[k as int] == floor_half(c[k as int]) + 1800);
                    assert forall|q: int| 0 <= q < c.len() implies c[q] >= 0 by {}
                    lemma_element_le_sum(c, k as int);
                    lemma_element_le_sum(as_ints(cols@[e as int]@), k as int);
                }
                values.push(cols[e][k]);
                e += 1;
            }
            proof {
                lemma_sum_le_bound(as_ints(values@), cell_bound() + 1800);
                assert(vc * (cell_bound() + 1800) <= 65536 * (cell_bound() + 1800)) by (nonlinear_arith)
                    requires vc <= 65536;
            }
            let total = sum_values(values.as_slice());
            assert(k < pi.len());
            assert(pidx@.len() == pi.len());
            assert(k < pidx.len());
            k += 1;
            (values, total)
        } else {
            (copy_values(&row.values), row.total)
        };
        proof {
            if is_project_row(rows@[i as int]) {
                assert(project_indices(rows@.take(i + 1)) == project_indices(rows@.take(i as int)).push(i as int));
            } else {
                assert(project_indices(rows@.take(i + 1)) == project_indices(rows@.take(i as int)));
            }
        }
        out.push(
            TimesheetPreviewRow {
                label: row.label.clone(),
                values,
                total,
                is_comment: row.is_comment,
                is_total: row.is_total,
            },
        );
        i += 1;
    }
    proof {
        assert(rows@.take(n as int) =~= rows@);
        let new = out@;
        let old = rows@;
        lemma_project_indices_flags(new, old);
        lemma_first_total_flags(new, old);
        assert forall|d: int| 0 <= d < vc implies is_half_rounding(
            #[trigger] column(new, d),
            column(old, d),
        ) by {
            assert(column(new, d) =~= as_ints(cols@[d]@)) by {
                assert forall|q: int| 0 <= q < pi.len() implies column(new, d)[q] == as_ints(cols@[d]@)[q] by {
                    lemma_project_rank(old, q);
                }
            }
        }
        if total_pos is Some {
            let t = total_pos.unwrap() as int;
            assert forall|d: int| 0 <= d < vc implies (#[trigger] new[t].values@[d]) == seq_sum(
                column(new, d),
            ) by {
                assert(column(new, d) =~= as_ints(cols@[d]@)) by {
                    assert forall|q: int| 0 <= q < pi.len() implies column(new, d)[q] == as_ints(cols@[d]@)[q] by {
                        lemma_project_rank(old, q);
                    }
                }
            }
        }
    }
    out
}

/// How many project rows come before position `i`.
pub open spec fn project_rank(rows: Seq<TimesheetPreviewRow>, i: int) -> int {
    project_indices(rows.take(i)).len() as int
}

proof fn lemma_project_rank(rows: Seq<TimesheetPreviewRow>, q: int)
    requires
        0 <= q < project_indices(rows).len(),
    ensures
        0 <= project_indices(rows)[q] < rows.len(),
        is_project_row(rows[project_indices(rows)[q]]),
        project_rank(rows, project_indices(rows)[q]) == q,
    decreases rows.len(),
{
    lemma_project_indices_shape(rows);
    let p = project_indices(rows.drop_last());
    if q < p.len() {
        lemma_project_rank(rows.drop_last(), q);
        let i = p[q];
        assert(rows.take(i) =~= rows.drop_last().take(i));
    } else {
        assert(rows.take(rows.len() - 1) =~= rows.drop_last());
    }
}

/// Rounding keeps each day's total: after rounding, the first totals row holds
/// for each day the project hours of that day added up and rounded once to a
/// half hour.
pub proof fn lemma_rounding_keeps_daily_totals(
    new: Seq<TimesheetPreviewRow>,
    old: Seq<TimesheetPreviewRow>,
    t: int,
    d: int,
)
    requires
        is_rounded_rows(new, old),
        first_total(old) == Some(t),
        0 <= d < value_count(old),
    ensures
        new[t].values@[d] == round_half(seq_sum(column(old, d))),
{
}

/// Two sequences of rows that show the same: labels, values, totals and
/// kinds row by row.
pub open spec fn rows_alike(a: Seq<TimesheetPreviewRow>, b: Seq<TimesheetPreviewRow>) -> bool {
    &&& a.len() == b.len()
    &&& forall|i: int|
        0 <= i < a.len() ==> (#[trigger] a[i]).label@ == b[i].label@ && a[i].values@ == b[i].values@
            && a[i].total == b[i].total && a[i].is_comment == b[i].is_comment && a[i].is_total
            == b[i].is_total
}

/// Rounding depends on what rows show alone: rows rounded from some rows
/// are rounded from any rows alike to them.
pub proof fn lemma_rounded_rows_alike(
    new: Seq<TimesheetPreviewRow>,
    a: Seq<TimesheetPreviewRow>,
    b: Seq<TimesheetPreviewRow>,
)
    requires
        is_rounded_rows(new, a),
        rows_alike(a, b),
    ensures
        is_rounded_rows(new, b),
{
    assert forall|i: int| 0 <= i < a.len() implies is_project_row(#[trigger] a[i]) == is_project_row(b[i]) by {}
    lemma_project_indices_flags(a, b);
    assert forall|i: int| 0 <= i < a.len() implies (#[trigger] a[i]).is_total == b[i].is_total by {}
    lemma_first_total_flags(a, b);
    lemma_project_indices_shape(a);
    lemma_first_total_shape(a);
    assert(value_count(a) == value_count(b));
    assert forall|d: int| 0 <= d < value_count(a) implies #[trigger] column(a, d) == column(b, d) by {
        assert(column(a, d) =~= column(b, d));
    }
    let vc = value_count(b);
    assert forall|d: int| 0 <= d < vc implies is_half_rounding(#[trigger] column(new, d), column(b, d)) by {
        assert(column(a, d) == column(b, d));
    }
    assert forall|i: int|
        0 <= i < b.len() && first_total(b) != Some(i) implies {
            &&& is_project_row(b[i]) ==> (#[trigger] new[i]).values.len() == vc
                && new[i].total == seq_sum(as_ints(new[i].values@))
            &&& b[i].is_comment ==> is_half_rounding(as_ints(new[i].values@), as_ints(b[i].values@))
                && new[i].total == seq_sum(as_ints(new[i].values@))
            &&& b[i].is_total && !b[i].is_comment ==> new[i].values@ == b[i].values@
                && new[i].total == b[i].total
        } by {
        assert(as_ints(a[i].values@) == as_ints(b[i].values@));
    }
}

/// Every sheet of the preview can be rounded.
pub open spec fn preview_roundable(p: TimesheetPreview) -> bool {
    forall|s: int| 0 <= s < p.sheets.len() ==> rows_roundable(#[trigger] p.sheets@[s].rows@)
}

/// `new` is `old` with the hours of every sheet rounded (`is_rounded_rows`);
/// titles, sheet names and column headers stay.
pub open spec fn is_rounded_preview(new: TimesheetPreview, old: TimesheetPreview) -> bool {
    &&& new.title@ == old.title@
    &&& new.generated_at@ == old.generated_at@
    &&& new.generated_at_epoch_ms == old.generated_at_epoch_ms
    &&& new.sheets.len() == old.sheets.len()
    &&& forall|s: int|
        0 <= s < old.sheets.len() ==> (#[trigger] new.sheets@[s]).name@ == old.sheets@[s].name@
            && string_views(new.sheets@[s].columns@) == string_views(old.sheets@[s].columns@)
            && is_rounded_rows(
            new.sheets@[s].rows@,
            old.sheets@[s].rows@,
        )
}

/// The preview with its hours rounded to half hours, keeping the rounded
/// daily totals (see `lemma_rounding_keeps_daily_totals`).
pub fn apply_rounding_to_preview(preview: TimesheetPreview) -> (r: TimesheetPreview)
    requires
        preview_roundable(preview),
    ensures
        is_rounded_preview(r, preview),
{
    let mut sheets: Vec<TimesheetPreviewSheet> = Vec::new();
    let mut i: usize = 0;
    while i < preview.sheets.len()
        invariant
            preview_roundable(preview),
            i <= preview.sheets.len(),
            sheets.len() == i,
            forall|s: int|
                0 <= s < i ==> (#[trigger] sheets@[s]).name@ == preview.sheets@[s].name@
                    && string_views(sheets@[s].columns@) == string_views(preview.sheets@[s].columns@)
                    && is_rounded_rows(
                    sheets@[s].rows@,
                    preview.sheets@[s].rows@,
                ),
        decreases preview.sheets.len() - i,
    {
        let sheet = &preview.sheets[i];
        proof {
            assert(rows_roundable(preview.sheets@[i as int].rows@));
        }
        let rows = round_rows(&sheet.rows);
        let columns = sheet.columns.clone();
        proof {
            assert forall|k: int| 0 <= k < columns.len() implies columns@[k] == sheet.columns@[k] by {
                assert(cloned::<String>(sheet.columns[k], columns[k]));
            }
            assert(columns@ =~= sheet.columns@);
        }
        sheets.push(TimesheetPreviewSheet { name: sheet.name.clone(), columns, rows });
        i += 1;
    }
    TimesheetPreview {
        title: preview.title,
        generated_at: preview.generated_at,
        generated_at_epoch_ms: preview.generated_at_epoch_ms,
        sheets,
    }
}

} // verus!

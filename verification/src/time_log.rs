//! Reading the time log: one line per switch of project, `timestamp<TAB>project[<TAB>comment]`.
//! Each timestamp ends the previous entry and starts the next.
use vstd::prelude::*;

use crate::clock::{parse_timestamp, parsed_timestamp, stamp_after, stamp_le, stamp_ok, LogStamp};
use crate::text::{append_chars, chars_of, join_with, lemma_join_push, lines_of, split_chars, split_on, string_of, text_lines, texts};

verus! {

/// A log entry as values: when it starts, its project and its comment.
pub struct EntryData {
    pub stamp: LogStamp,
    pub project: Seq<char>,
    pub comment: Seq<char>,
}

/// An entry of the time log.
#[derive(Debug)]
pub struct LogEntry {
    pub stamp: LogStamp,
    pub project: Vec<char>,
    pub comment: Vec<char>,
}

impl View for LogEntry {
    type V = EntryData;

    open spec fn view(&self) -> EntryData {
        EntryData { stamp: self.stamp, project: self.project@, comment: self.comment@ }
    }
}

/// The entries held by a sequence of log entries.
pub open spec fn entry_views(v: Seq<LogEntry>) -> Seq<EntryData> {
    v.map_values(|e: LogEntry| e@)
}

/// The timestamp format of the log.
pub open spec fn log_time_format() -> Seq<char> {
    "%Y-%m-%d %H:%M:%S"@
}

/// The entry a line of the log holds: at least two tab-separated fields, the
/// first a timestamp; fields after the second are the comment, joined by spaces.
pub open spec fn line_entry(line: Seq<char>) -> Option<EntryData> {
    let fields = split_on(line, '\t');
    if fields.len() < 2 {
        None
    } else {
        match parsed_timestamp(fields[0], log_time_format()) {
            None => None,
            Some(stamp) => Some(
                EntryData {
                    stamp: stamp,
                    project: fields[1],
                    comment: join_with(fields.skip(2), seq![' ']),
                },
            ),
        }
    }
}

/// The entries of the lines that hold one, in file order.
pub open spec fn raw_entries(lines: Seq<Seq<char>>) -> Seq<EntryData>
    decreases lines.len(),
{
    if lines.len() == 0 {
        Seq::<EntryData>::empty()
    } else {
        let init = raw_entries(lines.drop_last());
        match line_entry(lines.last()) {
            Some(e) => init.push(e),
            None => init,
        }
    }
}

/// The position of the first entry dated `since` or later (the length if none is).
pub open spec fn first_since(raw: Seq<EntryData>, since: int) -> int
    decreases raw.len(),
{
    if raw.len() == 0 {
        0
    } else if raw[0].stamp.date.day >= since {
        0
    } else {
        1 + first_since(raw.drop_first(), since)
    }
}

/// The entries that matter for a view from day `since` on: those dated
/// `since` or later, preceded by the entry right before the first of them,
/// which is still running when that day begins.
pub open spec fn entries_since(raw: Seq<EntryData>, since: int) -> Seq<EntryData> {
    let f = first_since(raw, since);
    if f >= raw.len() {
        Seq::<EntryData>::empty()
    } else {
        let lead = if f > 0 {
            seq![raw[f - 1]]
        } else {
            Seq::<EntryData>::empty()
        };
        lead + raw.skip(f).filter(|e: EntryData| e.stamp.date.day >= since)
    }
}

/// `e` placed after every entry of `t` that is not later than it.
pub open spec fn insert_by_time(t: Seq<EntryData>, e: EntryData) -> Seq<EntryData>
    decreases t.len(),
{
    if t.len() == 0 || stamp_le(t.last().stamp, e.stamp) {
        t.push(e)
    } else {
        insert_by_time(t.drop_last(), e).push(t.last())
    }
}

/// The entries ordered by time; entries with the same time keep their order.
pub open spec fn time_sorted(s: Seq<EntryData>) -> Seq<EntryData>
    decreases s.len(),
{
    if s.len() == 0 {
        s
    } else {
        insert_by_time(time_sorted(s.drop_last()), s.last())
    }
}

/// The entries a timesheet is built from, or the error when there are none.
/// With `recent_only` only the view from day `since` on is kept.
pub open spec fn parsed_log(content: Seq<char>, recent_only: bool, since: int) -> Result<
    Seq<EntryData>,
    Seq<char>,
> {
    let raw = raw_entries(text_lines(content));
    let selected = if recent_only {
        entries_since(raw, since)
    } else {
        raw
    };
    if selected.len() == 0 {
        Err("Your timesheet is empty."@)
    } else {
        Ok(time_sorted(selected))
    }
}

/// Entries ordered by time.
pub open spec fn is_time_ordered(s: Seq<EntryData>) -> bool {
    forall|i: int, j: int| 0 <= i <= j < s.len() ==> stamp_le(s[i].stamp, s[j].stamp)
}

// ---------------------------------------------------------------------------
// Lemmas
// ---------------------------------------------------------------------------

proof fn lemma_insert_by_time_ordered(t: Seq<EntryData>, e: EntryData)
    requires
        is_time_ordered(t),
    ensures
        is_time_ordered(insert_by_time(t, e)),
        insert_by_time(t, e).len() == t.len() + 1,
        insert_by_time(t, e).to_multiset() =~= t.to_multiset().insert(e),
    decreases t.len(),
{
    broadcast use vstd::seq_lib::group_seq_properties;
    if t.len() == 0 || stamp_le(t.last().stamp, e.stamp) {
        let n = t.push(e);
        assert forall|i: int, j: int| 0 <= i <= j < n.len() implies stamp_le(n[i].stamp, n[j].stamp) by {
            if j == t.len() && i < j {
                assert(stamp_le(t[i].stamp, t[t.len() - 1].stamp));
            } else if j < t.len() {
                assert(stamp_le(t[i].stamp, t[j].stamp));
            }
        }
    } else {
        lemma_insert_by_time_ordered(t.drop_last(), e);
        let r = insert_by_time(t.drop_last(), e);
        assert(r.len() > 0);
        lemma_insert_last(t.drop_last(), e);
        assert(t =~= t.drop_last().push(t.last()));
        let n = r.push(t.last());
        assert forall|i: int, j: int| 0 <= i <= j < n.len() implies stamp_le(n[i].stamp, n[j].stamp) by {
            if j == r.len() && i < j {
                if r[i] != e {
                    let w = choose|w: int| 0 <= w < t.drop_last().len() && t.drop_last()[w] == r[i];
                    assert(t[w] == r[i]);
                    assert(stamp_le(t[w].stamp, t[t.len() - 1].stamp));
                }
            } else if j < r.len() {
                assert(n[i] == r[i] && n[j] == r[j]);
            }
        }
    }
}

proof fn lemma_insert_last(t: Seq<EntryData>, e: EntryData)
    ensures
        insert_by_time(t, e).len() > 0,
        insert_by_time(t, e).last() == e || (t.len() > 0 && insert_by_time(t, e).last() == t.last()),
        forall|k: int|
            0 <= k < insert_by_time(t, e).len() ==> #[trigger] insert_by_time(t, e)[k] == e || t.contains(
                insert_by_time(t, e)[k],
            ),
    decreases t.len(),
{
    if t.len() == 0 || stamp_le(t.last().stamp, e.stamp) {
        assert forall|k: int| 0 <= k < t.push(e).len() implies #[trigger] t.push(e)[k] == e
            || t.contains(t.push(e)[k]) by {
            if k < t.len() {
                assert(t.push(e)[k] == t[k]);
            }
        }
    } else {
        lemma_insert_last(t.drop_last(), e);
        let r = insert_by_time(t.drop_last(), e);
        assert forall|k: int| 0 <= k < r.push(t.last()).len() implies #[trigger] r.push(t.last())[k]
            == e || t.contains(r.push(t.last())[k]) by {
            if k < r.len() {
                if r[k] != e {
                    let w = choose|w: int| 0 <= w < t.drop_last().len() && t.drop_last()[w] == r[k];
                    assert(t[w] == r[k]);
                }
            } else {
                assert(t[t.len() - 1] == t.last());
            }
        }
    }
}

/// The entries of a timesheet are ordered by time and are exactly the
/// selected entries.
pub proof fn lemma_time_sorted(s: Seq<EntryData>)
    ensures
        is_time_ordered(time_sorted(s)),
        time_sorted(s).len() == s.len(),
        time_sorted(s).to_multiset() =~= s.to_multiset(),
    decreases s.len(),
{
    broadcast use vstd::seq_lib::group_seq_properties;
    if s.len() > 0 {
        lemma_time_sorted(s.drop_last());
        lemma_insert_by_time_ordered(time_sorted(s.drop_last()), s.last());
        assert(s =~= s.drop_last().push(s.last()));
    }
}

// ---------------------------------------------------------------------------
// Executable reading of the log
// ---------------------------------------------------------------------------

/// The entry a line holds (`line_entry`).
pub fn entry_of_line(line: &[char]) -> (r: Option<LogEntry>)
    ensures
        match r {
            Some(e) => line_entry(line@) == Some(e@) && stamp_ok(e.stamp),
            None => line_entry(line@) is None,
        },
{
    let fields = split_chars(line, '\t');
    let ghost fs = split_on(line@, '\t');
    if fields.len() < 2 {
        return None;
    }
    let stamp_text = string_of(fields[0].as_slice());
    proof {
        assert(texts(fields@)[0] == fields@[0]@);
    }
    let stamp = match parse_timestamp(stamp_text.as_str(), "%Y-%m-%d %H:%M:%S") {
        Some(s) => s,
        None => {
            return None;
        },
    };
    let mut project: Vec<char> = Vec::new();
    append_chars(&mut project, fields[1].as_slice());
    let mut comment: Vec<char> = Vec::new();
    let mut k: usize = 2;
    proof {
        assert(texts(fields@)[1] == fields@[1]@);
        assert(fs.skip(2).take(0) =~= Seq::<Seq<char>>::empty());
    }
    while k < fields.len()
        invariant
            fs == texts(fields@),
            fields.len() >= 2,
            2 <= k <= fields.len(),
            comment@ == join_with(fs.skip(2).take(k - 2), seq![' ']),
        decreases fields.len() - k,
    {
        let ghost before = fs.skip(2).take(k - 2);
        proof {
            assert(fs.skip(2).take(k - 1) =~= before.push(fields@[k as int]@));
            assert(fs[k as int] == fields@[k as int]@);
        }
        if k > 2 {
            proof {
                lemma_join_push(before, seq![' '], fields@[k as int]@);
            }
            comment.push(' ');
            let ghost mid = comment@;
            append_chars(&mut comment, fields[k].as_slice());
            proof {
                assert(comment@ =~= join_with(before, seq![' ']) + seq![' '] + fields@[k as int]@);
            }
        } else {
            proof {
                assert(before =~= Seq::<Seq<char>>::empty());
                assert(before.push(fields@[k as int]@) =~= seq![fields@[k as int]@]);
            }
            append_chars(&mut comment, fields[k].as_slice());
            proof {
                assert(comment@ =~= fields@[k as int]@);
            }
        }
        k += 1;
    }
    proof {
        assert(fs.skip(2).take(fields.len() - 2) =~= fs.skip(2));
    }
    Some(LogEntry { stamp, project, comment })
}

/// The entries of every line that holds one (`raw_entries` of `text_lines`).
pub fn read_entries(content: &str) -> (r: Vec<LogEntry>)
    ensures
        entry_views(r@) == raw_entries(text_lines(content@)),
        forall|k: int| 0 <= k < r.len() ==> stamp_ok(#[trigger] r@[k].stamp),
{
    let cs = chars_of(content);
    let lines = lines_of(cs.as_slice());
    let ghost ls = text_lines(content@);
    let mut r: Vec<LogEntry> = Vec::new();
    let mut i: usize = 0;
    while i < lines.len()
        invariant
            ls == texts(lines@),
            i <= lines.len(),
            entry_views(r@) == raw_entries(ls.take(i as int)),
            forall|k: int| 0 <= k < r.len() ==> stamp_ok(#[trigger] r@[k].stamp),
        decreases lines.len() - i,
    {
        proof {
            assert(ls.take(i + 1).drop_last() =~= ls.take(i as int));
            assert(ls.take(i + 1).last() == lines@[i as int]@);
        }
        match entry_of_line(lines[i].as_slice()) {
            Some(e) => {
                let ghost before = entry_views(r@);
                r.push(e);
                proof {
                    assert(entry_views(r@) =~= before.push(e@));
                }
            },
            None => {},
        }
        i += 1;
    }
    proof {
        assert(ls.take(lines.len() as int) =~= ls);
    }
    r
}

impl LogEntry {
    /// A copy of the entry.
    pub fn copy(&self) -> (r: LogEntry)
        ensures
            r@ == self@,
    {
        let mut project: Vec<char> = Vec::new();
        append_chars(&mut project, self.project.as_slice());
        let mut comment: Vec<char> = Vec::new();
        append_chars(&mut comment, self.comment.as_slice());
        LogEntry { stamp: self.stamp, project, comment }
    }
}

proof fn lemma_first_since_bounds(s: Seq<EntryData>, y: int)
    ensures
        0 <= first_since(s, y) <= s.len(),
        forall|k: int| 0 <= k < first_since(s, y) ==> s[k].stamp.date.day < y,
        first_since(s, y) < s.len() ==> s[first_since(s, y)].stamp.date.day >= y,
    decreases s.len(),
{
    if s.len() > 0 && s[0].stamp.date.day < y {
        lemma_first_since_bounds(s.drop_first(), y);
        assert forall|k: int| 0 <= k < first_since(s, y) implies s[k].stamp.date.day < y by {
            if k > 0 {
                assert(s[k] == s.drop_first()[k - 1]);
            }
        }
    }
}

proof fn lemma_first_since_push(s: Seq<EntryData>, e: EntryData, y: int)
    ensures
        first_since(s.push(e), y) == if first_since(s, y) < s.len() {
            first_since(s, y)
        } else if e.stamp.date.day >= y {
            s.len() as int
        } else {
            s.len() + 1int
        },
    decreases s.len(),
{
    lemma_first_since_bounds(s, y);
    if s.len() == 0 {
        assert(s.push(e)[0] == e);
        assert(s.push(e).drop_first().len() == 0);
        assert(first_since(s.push(e).drop_first(), y) == 0);
    } else if s[0].stamp.date.day >= y {
        assert(s.push(e)[0] == s[0]);
    } else {
        assert(s.push(e)[0] == s[0]);
        assert(s.push(e).drop_first() =~= s.drop_first().push(e));
        lemma_first_since_push(s.drop_first(), e, y);
        lemma_first_since_bounds(s.drop_first(), y);
        assert(first_since(s, y) == 1 + first_since(s.drop_first(), y));
        assert(first_since(s.push(e), y) == 1 + first_since(s.drop_first().push(e), y));
    }
}

proof fn lemma_filter_push_since(x: Seq<EntryData>, e: EntryData, y: int)
    ensures
        x.push(e).filter(|q: EntryData| q.stamp.date.day >= y) == if e.stamp.date.day >= y {
            x.filter(|q: EntryData| q.stamp.date.day >= y).push(e)
        } else {
            x.filter(|q: EntryData| q.stamp.date.day >= y)
        },
{
    reveal(Seq::filter);
    assert(x.push(e).drop_last() =~= x);
}

proof fn lemma_entries_since_push(s: Seq<EntryData>, e: EntryData, y: int)
    ensures
        entries_since(s.push(e), y) == if first_since(s, y) < s.len() {
            if e.stamp.date.day >= y {
                entries_since(s, y).push(e)
            } else {
                entries_since(s, y)
            }
        } else if e.stamp.date.day >= y {
            if s.len() > 0 {
                seq![s.last(), e]
            } else {
                seq![e]
            }
        } else {
            Seq::<EntryData>::empty()
        },
{
    lemma_first_since_push(s, e, y);
    lemma_first_since_bounds(s, y);
    let f = first_since(s, y);
    let p = s.push(e);
    if f < s.len() {
        assert(p.skip(f) =~= s.skip(f).push(e));
        lemma_filter_push_since(s.skip(f), e, y);
        if f > 0 {
            assert(p[f - 1] == s[f - 1]);
        }
        if e.stamp.date.day >= y {
            let lead = if f > 0 { seq![s[f - 1]] } else { Seq::<EntryData>::empty() };
            assert(lead + s.skip(f).filter(|q: EntryData| q.stamp.date.day >= y).push(e) =~= (lead
                + s.skip(f).filter(|q: EntryData| q.stamp.date.day >= y)).push(e));
        }
    } else if e.stamp.date.day >= y {
        assert(p.skip(f) =~= seq![e]);
        lemma_filter_push_since(Seq::<EntryData>::empty(), e, y);
        assert(Seq::<EntryData>::empty().filter(|q: EntryData| q.stamp.date.day >= y) =~= Seq::<
            EntryData,
        >::empty()) by {
            reveal(Seq::filter);
        }
        assert(Seq::<EntryData>::empty().push(e) =~= seq![e]);
        if s.len() > 0 {
            assert(p[f - 1] == s.last());
            assert(seq![s.last()] + seq![e] =~= seq![s.last(), e]);
        } else {
            assert(Seq::<EntryData>::empty() + seq![e] =~= seq![e]);
        }
    }
}

proof fn lemma_entries_since_nonempty(s: Seq<EntryData>, y: int)
    requires
        first_since(s, y) < s.len(),
    ensures
        entries_since(s, y).len() > 0,
{
    lemma_first_since_bounds(s, y);
    let f = first_since(s, y);
    let pred = |e: EntryData| e.stamp.date.day >= y;
    assert(s.skip(f)[0] == s[f]);
    s.skip(f).lemma_filter_contains(pred, 0);
    assert(s.skip(f).filter(pred).len() > 0);
}

/// The entries that matter from day `since` on (`entries_since`).
pub fn select_since(raw: &Vec<LogEntry>, since: i32) -> (r: Vec<LogEntry>)
    requires
        forall|k: int| 0 <= k < raw.len() ==> stamp_ok(#[trigger] raw@[k].stamp),
    ensures
        entry_views(r@) == entries_since(entry_views(raw@), since as int),
        forall|k: int| 0 <= k < r.len() ==> stamp_ok(#[trigger] r@[k].stamp),
{
    let ghost all = entry_views(raw@);
    let mut entries: Vec<LogEntry> = Vec::new();
    let mut last_before: Option<LogEntry> = None;
    let mut i: usize = 0;
    while i < raw.len()
        invariant
            all == entry_views(raw@),
            i <= raw.len(),
            first_since(all.take(i as int), since as int) < i ==> entry_views(entries@)
                == entries_since(all.take(i as int), since as int),
            first_since(all.take(i as int), since as int) >= i ==> entries.len() == 0 && (if i > 0 {
                last_before matches Some(b) && b@ == all[i - 1] && stamp_ok(b.stamp)
            } else {
                last_before is None
            }),
            forall|k: int| 0 <= k < raw.len() ==> stamp_ok(#[trigger] raw@[k].stamp),
            forall|k: int| 0 <= k < entries.len() ==> stamp_ok(#[trigger] entries@[k].stamp),
        decreases raw.len() - i,
    {
        let ghost pre = all.take(i as int);
        proof {
            assert(all.take(i + 1) =~= pre.push(all[i as int]));
            lemma_entries_since_push(pre, all[i as int], since as int);
            lemma_first_since_push(pre, all[i as int], since as int);
            lemma_first_since_bounds(pre, since as int);
        }
        let entry = raw[i].copy();
        proof {
            assert(entry@ == all[i as int]);
            assert(entry.stamp == raw@[i as int].stamp);
            assert(stamp_ok(entry.stamp));
        }
        if entry.stamp.date.day < since {
            last_before = Some(entry);
        } else {
            proof {
                if first_since(pre, since as int) < i {
                    lemma_entries_since_nonempty(pre, since as int);
                }
            }
            if entries.len() == 0 {
                let lead = last_before;
                last_before = None;
                match lead {
                    Some(prev) => {
                        proof {
                            if i > 0 {
                                assert(pre.last() == all[i - 1]);
                            }
                        }
                        entries.push(prev);
                        proof {
                            assert(entry_views(entries@) =~= seq![all[i - 1]]);
                        }
                    },
                    None => {},
                }
            }
            let ghost before = entry_views(entries@);
            let ghost old_entries = entries@;
            let ghost es = entry.stamp;
            entries.push(entry);
            proof {
                assert forall|k: int| 0 <= k < entries.len() implies stamp_ok(
                    #[trigger] entries@[k].stamp,
                ) by {
                    if k < old_entries.len() {
                        assert(entries@[k] == old_entries[k]);
                    } else {
                        assert(entries@[k].stamp == es);
                    }
                }
                assert(entry_views(entries@) =~= before.push(all[i as int]));
                if first_since(pre, since as int) >= i {
                    if i > 0 {
                        assert(before =~= seq![all[i - 1]]);
                        assert(seq![all[i - 1]].push(all[i as int]) =~= seq![pre.last(), all[i as int]]);
                    } else {
                        assert(before =~= Seq::<EntryData>::empty());
                        assert(Seq::<EntryData>::empty().push(all[i as int]) =~= seq![all[i as int]]);
                    }
                }
            }
        }
        i += 1;
    }
    proof {
        assert(all.take(raw.len() as int) =~= all);
        lemma_first_since_bounds(all, since as int);
        if first_since(all, since as int) >= raw.len() {
            assert(entries_since(all, since as int) =~= Seq::<EntryData>::empty());
            assert(entry_views(entries@) =~= Seq::<EntryData>::empty());
        }
    }
    entries
}

proof fn lemma_insert_at(t: Seq<EntryData>, e: EntryData, p: int)
    requires
        0 <= p <= t.len(),
        p == 0 || stamp_le(t[p - 1].stamp, e.stamp),
        forall|k: int| p <= k < t.len() ==> !stamp_le(t[k].stamp, e.stamp),
    ensures
        insert_by_time(t, e) == t.take(p) + seq![e] + t.skip(p),
    decreases t.len(),
{
    if p == t.len() {
        assert(t.take(p) + seq![e] + t.skip(p) =~= t.push(e));
    } else {
        lemma_insert_at(t.drop_last(), e, p);
        assert(t.take(p) + seq![e] + t.skip(p) =~= (t.drop_last().take(p) + seq![e]
            + t.drop_last().skip(p)).push(t.last()));
    }
}

/// The entries ordered by time, entries with equal times in their order
/// (`time_sorted`).
pub fn sort_by_time(entries: Vec<LogEntry>) -> (r: Vec<LogEntry>)
    requires
        forall|k: int| 0 <= k < entries.len() ==> stamp_ok(#[trigger] entries@[k].stamp),
    ensures
        entry_views(r@) == time_sorted(entry_views(entries@)),
        forall|k: int| 0 <= k < r.len() ==> stamp_ok(#[trigger] r@[k].stamp),
{
    let ghost all = entry_views(entries@);
    let mut sorted: Vec<LogEntry> = Vec::new();
    let mut i: usize = 0;
    while i < entries.len()
        invariant
            all == entry_views(entries@),
            i <= entries.len(),
            entry_views(sorted@) == time_sorted(all.take(i as int)),
            forall|k: int| 0 <= k < entries.len() ==> stamp_ok(#[trigger] entries@[k].stamp),
            forall|k: int| 0 <= k < sorted.len() ==> stamp_ok(#[trigger] sorted@[k].stamp),
        decreases entries.len() - i,
    {
        let e = entries[i].copy();
        let ghost t = entry_views(sorted@);
        let mut p = sorted.len();
        while p > 0 && stamp_after(&sorted[p - 1].stamp, &e.stamp)
            invariant
                t == entry_views(sorted@),
                p <= sorted.len(),
                forall|k: int| p <= k < sorted.len() ==> !stamp_le(t[k].stamp, e.stamp),
            decreases p,
        {
            p -= 1;
        }
        proof {
            assert(all.take(i + 1).drop_last() =~= all.take(i as int));
            assert(all.take(i + 1).last() == all[i as int]);
            lemma_insert_at(t, e@, p as int);
        }
        let ghost old_sorted = sorted@;
        sorted.insert(p, e);
        proof {
            assert(entry_views(sorted@) =~= t.take(p as int) + seq![all[i as int]] + t.skip(p as int));
            assert forall|k: int| 0 <= k < sorted.len() implies stamp_ok(
                #[trigger] sorted@[k].stamp,
            ) by {
                if k == p {
                    assert(sorted@[k].stamp == entries@[i as int].stamp);
                } else if k < p {
                    assert(sorted@[k] == old_sorted[k]);
                } else {
                    assert(sorted@[k] == old_sorted[k - 1]);
                }
            }
        }
        i += 1;
    }
    proof {
        assert(all.take(entries.len() as int) =~= all);
    }
    sorted
}

/// The entries a timesheet is built from (`parsed_log`): the entries of the
/// log, only the view from day `since` on when `recent_only`, ordered by time.
pub fn parse_log(content: &str, recent_only: bool, since: i32) -> (r: Result<Vec<LogEntry>, String>)
    ensures
        match r {
            Ok(v) => parsed_log(content@, recent_only, since as int) == Ok::<
                Seq<EntryData>,
                Seq<char>,
            >(entry_views(v@)),
            Err(msg) => parsed_log(content@, recent_only, since as int) == Err::<
                Seq<EntryData>,
                Seq<char>,
            >(msg@),
        },
        r matches Ok(v) ==> forall|k: int| 0 <= k < v.len() ==> stamp_ok(#[trigger] v@[k].stamp),
{
    let raw = read_entries(content);
    let selected = if recent_only {
        select_since(&raw, since)
    } else {
        raw
    };
    if selected.len() == 0 {
        return Err("Your timesheet is empty.".to_string());
    }
    let sorted = sort_by_time(selected);
    Ok(sorted)
}

} // verus!

//! The files the application keeps in its data directory, as contents: the
//! time log (`log.dat`), the project list (`projects.dat`) and the settings
//! (`settings.json`). Reading and writing the files is left to the caller;
//! these types compute what the files hold.
use vstd::prelude::*;
use vstd::utf8::encode_utf8;

use crate::settings::{
    normalize_quickpanel_mode, normalize_sort_mode, normalized_quickpanel_mode,
    normalized_sort_mode, UiPreferences,
};
use crate::text::{
    chars_of, join_with, lines_of, split_on, string_of, string_views, strings_of, strip_cr,
    text_lines, texts, texts_of,
};

verus! {

// ---------------------------------------------------------------------------
// The time log
// ---------------------------------------------------------------------------

/// The line that records a switch to `project` at the time `now`:
/// `now<TAB>project`, then `<TAB>comment` when there is a comment, then a
/// line feed.
pub open spec fn entry_line(now: Seq<char>, project: Seq<char>, comment: Seq<char>) -> Seq<char> {
    if comment.len() == 0 {
        now + seq!['\t'] + project + seq!['\n']
    } else {
        now + seq!['\t'] + project + seq!['\t'] + comment + seq!['\n']
    }
}

/// The log after a comment is added to its last line: the final line feed,
/// if any, is replaced by a tab, the comment and a line feed; an empty log
/// stays as it is (`None`).
pub open spec fn commented_log(content: Seq<u8>, comment: Seq<char>) -> Option<Seq<u8>> {
    if content.len() == 0 {
        None
    } else {
        let kept = if content.last() == 10 {
            content.drop_last()
        } else {
            content
        };
        Some(kept + seq![9u8] + encode_utf8(comment) + seq![10u8])
    }
}

/// What the time log does: append a line per switch of project, add a
/// comment to the last line, and empty the log.
pub trait LogRepository {
    /// The line to append for a switch to `project` at the time `now`.
    fn append_entry(&self, now: &str, project: &str, comment: &str) -> String;

    /// The log `content` with `comment` added to its last line; `None` when
    /// the log is empty and nothing is to be written.
    fn append_comment_to_last(&self, content: &[u8], comment: &str) -> Option<Vec<u8>>;

    /// What the log holds after it is emptied.
    fn reset(&self) -> String;
}

/// The time log kept as `log.dat` in a data directory.
pub struct FileLogRepository {
    pub data_dir: String,
}

impl FileLogRepository {
    /// The log of the data directory `data_dir`.
    pub fn new(data_dir: &str) -> (r: Self)
        ensures
            r.data_dir@ == data_dir@,
    {
        FileLogRepository { data_dir: data_dir.to_string() }
    }
}

impl LogRepository for FileLogRepository {
    /// The line `entry_line(now, project, comment)`.
    fn append_entry(&self, now: &str, project: &str, comment: &str) -> (r: String)
        ensures
            r@ == entry_line(now@, project@, comment@),
    {
        let mut cs = chars_of(now);
        cs.push('\t');
        let p = chars_of(project);
        crate::text::append_chars(&mut cs, p.as_slice());
        let c = chars_of(comment);
        if c.len() > 0 {
            cs.push('\t');
            crate::text::append_chars(&mut cs, c.as_slice());
        }
        cs.push('\n');
        proof {
            if comment@.len() == 0 {
                assert(cs@ =~= entry_line(now@, project@, comment@));
            } else {
                assert(cs@ =~= entry_line(now@, project@, comment@));
            }
        }
        string_of(cs.as_slice())
    }

    /// The log with the comment on its last line (`commented_log`).
    fn append_comment_to_last(&self, content: &[u8], comment: &str) -> (r: Option<Vec<u8>>)
        ensures
            match r {
                Some(v) => commented_log(content@, comment@) == Some(v@),
                None => commented_log(content@, comment@) is None,
            },
    {
        if content.len() == 0 {
            return None;
        }
        let keep = if content[content.len() - 1] == 10 {
            content.len() - 1
        } else {
            content.len()
        };
        let mut out: Vec<u8> = Vec::new();
        let mut i: usize = 0;
        while i < keep
            invariant
                keep <= content.len(),
                i <= keep,
                out@ == content@.take(i as int),
            decreases keep - i,
        {
            out.push(content[i]);
            proof {
                assert(content@.take(i + 1) =~= content@.take(i as int).push(content@[i as int]));
            }
            i += 1;
        }
        out.push(9);
        let bytes = comment.as_bytes();
        let mut j: usize = 0;
        let ghost base = out@;
        while j < bytes.len()
            invariant
                j <= bytes.len(),
                out@ == base + bytes@.take(j as int),
            decreases bytes.len() - j,
        {
            out.push(bytes[j]);
            proof {
                assert(bytes@.take(j + 1) =~= bytes@.take(j as int).push(bytes@[j as int]));
            }
            j += 1;
        }
        out.push(10);
        proof {
            assert(bytes@.take(bytes.len() as int) =~= bytes@);
            let kept = if content@.last() == 10 {
                content@.drop_last()
            } else {
                content@
            };
            assert(content@.take(keep as int) =~= kept);
            assert(out@ =~= kept + seq![9u8] + encode_utf8(comment@) + seq![10u8]);
        }
        Some(out)
    }

    /// An empty log.
    fn reset(&self) -> (r: String)
        ensures
            r@.len() == 0,
    {
        String::new()
    }
}

// ---------------------------------------------------------------------------
// The project list
// ---------------------------------------------------------------------------

/// The projects a `projects.dat` holds: its non-empty lines.
pub open spec fn listed_projects(content: Seq<char>) -> Seq<Seq<char>> {
    text_lines(content).filter(|l: Seq<char>| l.len() > 0)
}

/// What `projects.dat` holds for a list of projects: one per line, each
/// ended by a line feed; nothing for no projects.
pub open spec fn projects_file(projects: Seq<Seq<char>>) -> Seq<char> {
    if projects.len() == 0 {
        Seq::<char>::empty()
    } else {
        join_with(projects, seq!['\n']) + seq!['\n']
    }
}

/// What the project list does: read the projects from the file's content
/// and give the content for a list of projects.
pub trait ProjectRepository {
    /// The projects of the file's `content` (empty when there is no file).
    fn load(&self, content: &str) -> Vec<String>;

    /// The file's content for `projects`.
    fn save(&self, projects: &[String]) -> String;
}

/// The project list kept as `projects.dat` in a data directory.
pub struct FileProjectRepository {
    pub data_dir: String,
}

impl FileProjectRepository {
    /// The project list of the data directory `data_dir`.
    pub fn new(data_dir: &str) -> (r: Self)
        ensures
            r.data_dir@ == data_dir@,
    {
        FileProjectRepository { data_dir: data_dir.to_string() }
    }
}

proof fn lemma_filter_push_nonempty(s: Seq<Seq<char>>, x: Seq<char>)
    ensures
        s.push(x).filter(|l: Seq<char>| l.len() > 0) == if x.len() > 0 {
            s.filter(|l: Seq<char>| l.len() > 0).push(x)
        } else {
            s.filter(|l: Seq<char>| l.len() > 0)
        },
{
    reveal(Seq::filter);
    assert(s.push(x).drop_last() =~= s);
}

/// A name the project file can hold as one line: not empty, no line feed,
/// and no carriage return at its end.
pub open spec fn is_listable(name: Seq<char>) -> bool {
    name.len() > 0 && !name.contains('\n') && name.last() != '\r'
}

proof fn lemma_split_no_sep(x: Seq<char>, sep: char)
    requires
        !x.contains(sep),
    ensures
        split_on(x, sep) == seq![x],
    decreases x.len(),
{
    if x.len() > 0 {
        assert(!x.drop_last().contains(sep)) by {
            if x.drop_last().contains(sep) {
                let k = choose|k: int| 0 <= k < x.drop_last().len() && x.drop_last()[k] == sep;
                assert(x[k] == sep);
            }
        }
        lemma_split_no_sep(x.drop_last(), sep);
        assert(x[x.len() - 1] == x.last());
        assert(x.drop_last().push(x.last()) =~= x);
        assert(seq![x.drop_last()].update(0, x.drop_last().push(x.last())) =~= seq![x]);
    } else {
        assert(x =~= Seq::<char>::empty());
    }
}

proof fn lemma_split_after_sep(s: Seq<char>, x: Seq<char>, sep: char)
    requires
        !x.contains(sep),
    ensures
        split_on(s + seq![sep] + x, sep) == split_on(s, sep).push(x),
    decreases x.len(),
{
    let y = s + seq![sep] + x;
    if x.len() == 0 {
        assert(y.drop_last() =~= s);
        assert(y.last() == sep);
        assert(x =~= Seq::<char>::empty());
    } else {
        assert(!x.drop_last().contains(sep)) by {
            if x.drop_last().contains(sep) {
                let k = choose|k: int| 0 <= k < x.drop_last().len() && x.drop_last()[k] == sep;
                assert(x[k] == sep);
            }
        }
        lemma_split_after_sep(s, x.drop_last(), sep);
        assert(y.drop_last() =~= s + seq![sep] + x.drop_last());
        assert(y.last() == x[x.len() - 1]);
        let init = split_on(s, sep).push(x.drop_last());
        assert(x.drop_last().push(x.last()) =~= x);
        assert(y.last() == x.last());
        assert(init.update(init.len() - 1, init.last().push(y.last())) =~= split_on(s, sep).push(x));
    }
}

proof fn lemma_split_join(ps: Seq<Seq<char>>)
    requires
        ps.len() > 0,
        forall|i: int| 0 <= i < ps.len() ==> !(#[trigger] ps[i]).contains('\n'),
    ensures
        split_on(join_with(ps, seq!['\n']), '\n') == ps,
    decreases ps.len(),
{
    if ps.len() == 1 {
        lemma_split_no_sep(ps[0], '\n');
        assert(seq![ps[0]] =~= ps);
    } else {
        lemma_split_join(ps.drop_last());
        assert(!ps[ps.len() - 1].contains('\n'));
        lemma_split_after_sep(join_with(ps.drop_last(), seq!['\n']), ps.last(), '\n');
        assert(ps.drop_last().push(ps.last()) =~= ps);
    }
}

proof fn lemma_filter_all_nonempty(ps: Seq<Seq<char>>)
    requires
        forall|i: int| 0 <= i < ps.len() ==> (#[trigger] ps[i]).len() > 0,
    ensures
        ps.filter(|l: Seq<char>| l.len() > 0) == ps,
    decreases ps.len(),
{
    reveal(Seq::filter);
    if ps.len() > 0 {
        lemma_filter_all_nonempty(ps.drop_last());
        assert(ps.drop_last().push(ps.last()) =~= ps);
    } else {
        assert(ps.filter(|l: Seq<char>| l.len() > 0) =~= ps);
    }
}

/// Projects saved to the project file are loaded back as they were, when
/// each can stand on a line of its own (`is_listable`).
pub proof fn lemma_projects_file_roundtrip(ps: Seq<Seq<char>>)
    requires
        forall|i: int| 0 <= i < ps.len() ==> is_listable(#[trigger] ps[i]),
    ensures
        listed_projects(projects_file(ps)) == ps,
{
    if ps.len() == 0 {
        assert(text_lines(Seq::<char>::empty()) =~= Seq::<Seq<char>>::empty());
        assert(Seq::<Seq<char>>::empty().filter(|l: Seq<char>| l.len() > 0) =~= Seq::<Seq<char>>::empty())
            by {
            reveal(Seq::filter);
        }
    } else {
        let content = projects_file(ps);
        assert forall|i: int| 0 <= i < ps.len() implies !(#[trigger] ps[i]).contains('\n') by {
            assert(is_listable(ps[i]));
        }
        lemma_split_join(ps);
        lemma_split_after_sep(join_with(ps, seq!['\n']), Seq::<char>::empty(), '\n');
        assert(content =~= join_with(ps, seq!['\n']) + seq!['\n'] + Seq::<char>::empty());
        let pieces = split_on(content, '\n');
        assert(pieces == ps.push(Seq::<char>::empty()));
        assert(text_lines(content) =~= ps) by {
            assert forall|j: int| 0 <= j < ps.len() implies strip_cr(pieces[j]) == ps[j] by {
                assert(pieces[j] == ps[j]);
                assert(is_listable(ps[j]));
            }
        }
        assert forall|i: int| 0 <= i < ps.len() implies (#[trigger] ps[i]).len() > 0 by {
            assert(is_listable(ps[i]));
        }
        lemma_filter_all_nonempty(ps);
    }
}

impl ProjectRepository for FileProjectRepository {
    /// The non-empty lines of the content (`listed_projects`).
    fn load(&self, content: &str) -> (r: Vec<String>)
        ensures
            string_views(r@) == listed_projects(content@),
    {
        let cs = chars_of(content);
        let lines = lines_of(cs.as_slice());
        let ghost ls = texts(lines@);
        let mut kept: Vec<Vec<char>> = Vec::new();
        let mut i: usize = 0;
        proof {
            assert(ls.take(0).filter(|l: Seq<char>| l.len() > 0) =~= Seq::<Seq<char>>::empty()) by {
                reveal(Seq::filter);
            }
        }
        while i < lines.len()
            invariant
                ls == texts(lines@),
                i <= lines.len(),
                texts(kept@) == ls.take(i as int).filter(|l: Seq<char>| l.len() > 0),
            decreases lines.len() - i,
        {
            proof {
                assert(ls.take(i + 1) =~= ls.take(i as int).push(lines@[i as int]@));
                lemma_filter_push_nonempty(ls.take(i as int), lines@[i as int]@);
            }
            if lines[i].len() > 0 {
                let mut copy: Vec<char> = Vec::new();
                crate::text::append_chars(&mut copy, lines[i].as_slice());
                let ghost before = kept@;
                kept.push(copy);
                proof {
                    assert(texts(kept@) =~= texts(before).push(lines@[i as int]@));
                }
            }
            i += 1;
        }
        proof {
            assert(ls.take(lines.len() as int) =~= ls);
        }
        strings_of(&kept)
    }

    /// The file's content for the projects (`projects_file`).
    fn save(&self, projects: &[String]) -> (r: String)
        ensures
            r@ == projects_file(string_views(projects@)),
    {
        let names = texts_of(projects);
        let ghost ns = texts(names@);
        let mut out: Vec<char> = Vec::new();
        let mut i: usize = 0;
        while i < names.len()
            invariant
                ns == texts(names@),
                i <= names.len(),
                out@ == join_with(ns.take(i as int), seq!['\n']),
            decreases names.len() - i,
        {
            proof {
                assert(ns.take(i + 1) =~= ns.take(i as int).push(names@[i as int]@));
                if i > 0 {
                    crate::text::lemma_join_push(ns.take(i as int), seq!['\n'], names@[i as int]@);
                } else {
                    assert(ns.take(1) =~= seq![names@[0]@]);
                }
            }
            if i > 0 {
                out.push('\n');
            }
            let ghost before = out@;
            crate::text::append_chars(&mut out, names[i].as_slice());
            proof {
                if i > 0 {
                    assert(out@ =~= join_with(ns.take(i as int), seq!['\n']) + seq!['\n'] + names@[i as int]@);
                } else {
                    assert(out@ =~= names@[0]@);
                }
            }
            i += 1;
        }
        if names.len() > 0 {
            out.push('\n');
        }
        proof {
            assert(ns.take(names.len() as int) =~= ns);
            if names.len() == 0 {
                assert(out@ =~= Seq::<char>::empty());
            }
        }
        string_of(out.as_slice())
    }
}

// ---------------------------------------------------------------------------
// The settings
// ---------------------------------------------------------------------------

/// Settings as they are kept: the sort mode and the quick panel mode
/// normalized, everything else as it is.
pub open spec fn kept_settings(r: UiPreferences, s: UiPreferences) -> bool {
    &&& r.always_on_top == s.always_on_top
    &&& r.open_on_start == s.open_on_start
    &&& r.project_sort_mode@ == normalized_sort_mode(s.project_sort_mode@)
    &&& r.quickpanel_mode@ == normalized_quickpanel_mode(s.quickpanel_mode@)
    &&& r.project_manual_order == s.project_manual_order
    &&& r.project_recent_usage == s.project_recent_usage
    &&& r.timesheet_rounding_enabled == s.timesheet_rounding_enabled
    &&& r.group_projects_enabled == s.group_projects_enabled
    &&& r.project_groups == s.project_groups
}

/// The settings kept as `settings.json` in a data directory.
pub struct FileSettingsRepository {
    pub data_dir: String,
}

impl FileSettingsRepository {
    /// The settings of the data directory `data_dir`.
    pub fn new(data_dir: &str) -> (r: Self)
        ensures
            r.data_dir@ == data_dir@,
    {
        FileSettingsRepository { data_dir: data_dir.to_string() }
    }

    /// The settings as they are loaded and saved (`kept_settings`).
    pub fn normalized(&self, settings: UiPreferences) -> (r: UiPreferences)
        ensures
            kept_settings(r, settings),
            settings.has_unique_names() ==> r.has_unique_names(),
    {
        let project_sort_mode = normalize_sort_mode(settings.project_sort_mode.as_str());
        let quickpanel_mode = normalize_quickpanel_mode(settings.quickpanel_mode.as_str());
        UiPreferences { project_sort_mode, quickpanel_mode, ..settings }
    }
}

} // verus!

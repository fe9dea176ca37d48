//! Writing the time log: what is appended when the project changes, what the
//! log becomes when a comment is added, and when it is reset.
use vstd::prelude::*;

use crate::clock::{local_now, reading_ok, rendered_time, LocalReading};
use crate::time_log::log_time_format;
use crate::repositories::{commented_log, entry_line, FileLogRepository, LogRepository};

verus! {

/// The line to append to the log of `data_dir` for a switch to `project`
/// now: `entry_line` of the local time written in the format the log is read
/// with (`log_time_format`, `rendered_time`), the project and the comment;
/// `None` when the clock cannot be read. The clock decides the reading.
pub fn log_new_entry(data_dir: &str, project: &str, comment: &str) -> (r: Option<String>)
    ensures
        r matches Some(line) ==> exists|t: LocalReading|
            reading_ok(t) && line@ == #[trigger] entry_line(
                rendered_time(log_time_format(), t),
                project@,
                comment@,
            ),
{
    let (now, _, t) = match local_now("%Y-%m-%d %H:%M:%S") {
        Some(n) => n,
        None => {
            return None;
        },
    };
    let line = FileLogRepository::new(data_dir).append_entry(now.as_str(), project, comment);
    proof {
        assert(line@ == entry_line(rendered_time(log_time_format(), t), project@, comment@));
    }
    Some(line)
}

/// The log `content` of `data_dir` with `comment` added to its last line
/// (`commented_log`); `None` when the log is empty.
pub fn append_comment_to_last(data_dir: &str, content: &[u8], comment: &str) -> (r: Option<Vec<u8>>)
    ensures
        match r {
            Some(v) => commented_log(content@, comment@) == Some(v@),
            None => commented_log(content@, comment@) is None,
        },
{
    FileLogRepository::new(data_dir).append_comment_to_last(content, comment)
}

/// What the log of `data_dir` holds once reset: nothing.
pub fn reset_log(data_dir: &str) -> (r: String)
    ensures
        r@.len() == 0,
{
    FileLogRepository::new(data_dir).reset()
}

} // verus!

//! The diagnostic log: one tab-separated line per message.
use vstd::prelude::*;

use crate::clock::{local_now, reading_ok, rendered_time, LocalReading};
use crate::text::{append_chars, chars_of, decimal, push_decimal, string_of};

verus! {

/// A line of the diagnostic log: time, level, module, `file:line` and
/// message, separated by tabs and ended by a line feed.
pub open spec fn diagnostic_line(
    timestamp: Seq<char>,
    level: Seq<char>,
    module: Seq<char>,
    file: Seq<char>,
    line: nat,
    message: Seq<char>,
) -> Seq<char> {
    timestamp + seq!['\t'] + level + seq!['\t'] + module + seq!['\t'] + file + seq![':'] + decimal(line)
        + seq!['\t'] + message + seq!['\n']
}

/// A message from the user interface with its data: `message | data` when
/// there is non-empty data, else the message alone.
pub open spec fn frontend_message(message: Seq<char>, data: Option<Seq<char>>) -> Seq<char> {
    match data {
        Some(d) => if d.len() > 0 {
            message + seq![' ', '|', ' '] + d
        } else {
            message
        },
        None => message,
    }
}

/// The text of an optional string.
pub open spec fn optional_text(s: Option<String>) -> Option<Seq<char>> {
    match s {
        Some(d) => Some(d@),
        None => None,
    }
}

/// The diagnostic line for a message (`diagnostic_line`).
pub fn diagnostic_entry(
    timestamp: &str,
    level: &str,
    module: &str,
    file: &str,
    line: u32,
    message: &str,
) -> (r: String)
    ensures
        r@ == diagnostic_line(timestamp@, level@, module@, file@, line as nat, message@),
{
    let mut cs = chars_of(timestamp);
    cs.push('\t');
    append_chars(&mut cs, chars_of(level).as_slice());
    cs.push('\t');
    append_chars(&mut cs, chars_of(module).as_slice());
    cs.push('\t');
    append_chars(&mut cs, chars_of(file).as_slice());
    cs.push(':');
    push_decimal(&mut cs, line as u64);
    cs.push('\t');
    append_chars(&mut cs, chars_of(message).as_slice());
    cs.push('\n');
    proof {
        assert(cs@ =~= diagnostic_line(timestamp@, level@, module@, file@, line as nat, message@));
    }
    string_of(cs.as_slice())
}

/// The diagnostic line of a message from the user interface with its data
/// (`frontend_message`), stamped `timestamp` and filed under `frontend:0`.
pub open spec fn frontend_line(
    timestamp: Seq<char>,
    level: Seq<char>,
    module: Seq<char>,
    message: Seq<char>,
    data: Option<Seq<char>>,
) -> Seq<char> {
    diagnostic_line(timestamp, level, module, "frontend"@, 0, frontend_message(message, data))
}

/// The format of the time stamps of the diagnostic log.
pub open spec fn diagnostic_time_format() -> Seq<char> {
    "%Y-%m-%d %H:%M:%S%.3f"@
}

/// Whether `r` is the diagnostic line of a message from the user interface
/// (`frontend_line`) stamped with some clock reading written in
/// `diagnostic_time_format`; `None` stands for a clock that could not be
/// read.
pub open spec fn logs_frontend_message(
    r: Option<String>,
    level: Seq<char>,
    module: Seq<char>,
    message: Seq<char>,
    data: Option<Seq<char>>,
) -> bool {
    r matches Some(line) ==> exists|t: LocalReading|
        reading_ok(t) && line@ == #[trigger] frontend_line(
            rendered_time(diagnostic_time_format(), t),
            level,
            module,
            message,
            data,
        )
}

/// The diagnostic line of a message from the user interface stamped
/// `timestamp` (`frontend_line`).
pub fn frontend_entry(timestamp: &str, level: &str, module: &str, message: &str, data: Option<String>) -> (r: String)
    ensures
        r@ == frontend_line(timestamp@, level@, module@, message@, optional_text(data)),
{
    let mut text = chars_of(message);
    match &data {
        Some(d) => {
            if !d.as_str().is_empty() {
                let dc = chars_of(d.as_str());
                text.push(' ');
                text.push('|');
                text.push(' ');
                append_chars(&mut text, dc.as_slice());
            }
        },
        None => {},
    }
    let full = string_of(text.as_slice());
    proof {
        match &data {
            Some(d) => {
                if d@.len() > 0 {
                    assert(full@ =~= message@ + seq![' ', '|', ' '] + d@);
                }
            },
            None => {},
        }
        assert(full@ == frontend_message(message@, optional_text(data)));
    }
    diagnostic_entry(timestamp, level, module, "frontend", 0, full.as_str())
}

/// The diagnostic line for a message from the user interface, stamped with
/// the local time now (`%Y-%m-%d %H:%M:%S%.3f`, `logs_frontend_message`);
/// `None` when the clock cannot be read. The clock decides the time.
pub fn frontend(level: &str, module: &str, message: &str, data: Option<String>) -> (r: Option<String>)
    ensures
        logs_frontend_message(r, level@, module@, message@, optional_text(data)),
{
    let (stamp, _, t) = match local_now("%Y-%m-%d %H:%M:%S%.3f") {
        Some(n) => n,
        None => {
            return None;
        },
    };
    let line = frontend_entry(stamp.as_str(), level, module, message, data);
    proof {
        assert(line@ == frontend_line(
            rendered_time(diagnostic_time_format(), t),
            level@,
            module@,
            message@,
            optional_text(data),
        ));
    }
    Some(line)
}

/// The diagnostic line for a message the user interface reports: what
/// `frontend` gives for the same message (`logs_frontend_message`).
pub fn log_from_frontend(level: String, module: String, message: String, data: Option<String>) -> (r: Option<String>)
    ensures
        logs_frontend_message(r, level@, module@, message@, optional_text(data)),
{
    frontend(level.as_str(), module.as_str(), message.as_str(), data)
}

} // verus!

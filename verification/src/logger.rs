//! The run log: its lines, its file and its recent history.

use std::collections::VecDeque;
use vstd::prelude::*;
use crate::paths::{join_path, path_in};
use crate::text::{append_str, chars_of, digit_value, is_digit, string_of, texts};

verus! {

/// How many lines the history keeps.
pub const HISTORY_LIMIT: usize = 200;

/// The log: the path of its file, and its recent lines. The path is unknown until
/// the log was set up; the lines are kept in any case, so that the window can
/// show what happened.
pub struct Logger {
    path: Option<String>,
    lines: VecDeque<String>,
}

/// The log.
pub struct LoggerView {
    pub path: Option<Seq<char>>,
    pub lines: Seq<Seq<char>>,
}

impl View for Logger {
    type V = LoggerView;

    closed spec fn view(&self) -> LoggerView {
        LoggerView {
            path: match self.path {
                Some(p) => Some(p@),
                None => None,
            },
            lines: texts(self.lines@),
        }
    }
}

impl LoggerView {
    /// The history never holds more lines than it may.
    pub open spec fn wf(self) -> bool {
        self.lines.len() <= HISTORY_LIMIT
    }
}

impl Logger {
    /// A log that was not set up: it has no file, and no lines yet.
    pub fn new() -> (log: Logger)
        ensures
            log@ == (LoggerView { path: None, lines: Seq::empty() }),
            log@.wf(),
    {
        let log = Logger { path: None, lines: VecDeque::with_capacity(HISTORY_LIMIT) };
        assert(log@.lines =~= Seq::<Seq<char>>::empty());
        log
    }
}

/// Why the log could not be set up. Each holds what the system said.
pub enum InitError {
    /// The data directory is unknown.
    NoDataDir { error: String },
    /// The data directory cannot be created.
    NoDirectory { dir: String, error: String },
    /// The log file cannot be opened.
    NoFile { path: String, error: String },
}

impl InitError {
    pub open spec fn text(self) -> Seq<char> {
        match self {
            InitError::NoDataDir { error } => "无法定位数据目录: "@ + error@,
            InitError::NoDirectory { dir, error } => "无法创建数据目录 "@ + dir@ + ": "@ + error@,
            InitError::NoFile { path, error } => "无法写入日志文件 "@ + path@ + ": "@ + error@,
        }
    }

    /// The text shown for the error.
    pub fn message(&self) -> (m: String)
        ensures
            m@ == self.text(),
    {
        match self {
            InitError::NoDataDir { error } => {
                let mut m = chars_of("无法定位数据目录: ");
                append_str(&mut m, error);
                string_of(&m)
            },
            InitError::NoDirectory { dir, error } => {
                let mut m = chars_of("无法创建数据目录 ");
                append_str(&mut m, dir);
                append_str(&mut m, ": ");
                append_str(&mut m, error);
                string_of(&m)
            },
            InitError::NoFile { path, error } => {
                let mut m = chars_of("无法写入日志文件 ");
                append_str(&mut m, path);
                append_str(&mut m, ": ");
                append_str(&mut m, error);
                string_of(&m)
            },
        }
    }
}

/// The path of the log file.
pub fn log_path(data_dir: &str, sep: char) -> (path: String)
    ensures
        path@ == path_in(data_dir@, "nadt.log"@, sep),
{
    join_path(data_dir, "nadt.log", sep)
}

/// Sets the log up with the path of its file, which can be written, and an empty
/// history. With an error the log stays as it was: it has no file, and goes on
/// keeping its lines.
pub fn init(log: &mut Logger, file: Result<String, InitError>) -> (done: Result<(), String>)
    ensures
        match (file, done) {
            (Ok(path), Ok(_)) => final(log)@ == (LoggerView {
                path: Some(path@),
                lines: Seq::empty(),
            }),
            (Err(e), Err(message)) => final(log)@ == old(log)@ && message@ == e.text(),
            _ => false,
        },
{
    match file {
        Ok(path) => {
            let lines: VecDeque<String> = VecDeque::with_capacity(HISTORY_LIMIT);
            assert(texts(lines@) =~= Seq::<Seq<char>>::empty());
            log.lines = lines;
            log.path = Some(path);
            Ok(())
        },
        Err(e) => Err(e.message()),
    }
}

/// The path of the log file, if the log was set up.
pub fn path(log: &Logger) -> (p: Option<String>)
    ensures
        match p {
            Some(text) => log@.path == Some(text@),
            None => log@.path is None,
        },
{
    match &log.path {
        Some(p) => Some(p.as_str().to_string()),
        None => None,
    }
}

/// The lines of the history, oldest first.
pub fn history(log: &Logger) -> (list: Vec<String>)
    ensures
        texts(list@) == log@.lines,
{
    let mut list: Vec<String> = Vec::new();
    let q = &log.lines;
    let mut i: usize = 0;
    assert(texts(list@) =~= texts(q@).take(0));
    while i < q.len()
        invariant
            i <= q@.len(),
            texts(list@) == texts(q@).take(i as int),
        decreases q.len() - i,
    {
        let ghost before = texts(list@);
        let line = q[i].as_str().to_string();
        list.push(line);
        assert(texts(list@) =~= before.push(line@));
        i += 1;
        assert(texts(list@) =~= texts(q@).take(i as int));
    }
    assert(texts(q@).take(q@.len() as int) =~= texts(q@));
    list
}

/// A line of the log.
pub open spec fn log_line(clock: Seq<char>, level: Seq<char>, message: Seq<char>) -> Seq<char> {
    "["@ + clock + "] ["@ + level + "] "@ + message
}

/// The history after one more line: the oldest line makes way where it is full.
pub open spec fn remembered(lines: Seq<Seq<char>>, line: Seq<char>) -> Seq<Seq<char>> {
    if lines.len() == HISTORY_LIMIT {
        lines.skip(1).push(line)
    } else {
        lines.push(line)
    }
}

/// The log after one more line, whether it was set up or not.
pub open spec fn recorded(log: LoggerView, line: Seq<char>) -> LoggerView {
    LoggerView { path: log.path, lines: remembered(log.lines, line) }
}

/// Records a message with the time `clock`, and returns the line to append to
/// the file and to show.
pub fn write_at(log: &mut Logger, clock: &str, level: &str, message: &str) -> (line: String)
    requires
        old(log)@.wf(),
    ensures
        line@ == log_line(clock@, level@, message@),
        final(log)@ == recorded(old(log)@, line@),
        final(log)@.wf(),
{
    let mut chars = chars_of("[");
    append_str(&mut chars, clock);
    append_str(&mut chars, "] [");
    append_str(&mut chars, level);
    append_str(&mut chars, "] ");
    append_str(&mut chars, message);
    let line = string_of(&chars);
    let ghost all = texts(log.lines@);
    if log.lines.len() == HISTORY_LIMIT {
        let _ = log.lines.pop_front();
        assert(texts(log.lines@) =~= all.skip(1));
    }
    let ghost rest = texts(log.lines@);
    let copy = line.as_str().to_string();
    log.lines.push_back(copy);
    assert(texts(log.lines@) =~= rest.push(copy@));
    line
}

/// Two digits at `i` that stand for a number of at most `max`.
pub open spec fn two_digits(s: Seq<char>, i: int, max: int) -> bool {
    is_digit(s[i]) && is_digit(s[i + 1]) && digit_value(s[i]) * 10 + digit_value(s[i + 1]) <= max
}

/// Whether the text is a time of day: hours, minutes and seconds. A leap second
/// counts as second 60.
pub open spec fn is_clock(s: Seq<char>) -> bool {
    s.len() == 8 && s[2] == ':' && s[5] == ':' && two_digits(s, 0, 23) && two_digits(s, 3, 59)
        && two_digits(s, 6, 60)
}

/// `chrono::Local::now`, and `format` with `%H:%M:%S` on what it returns. The
/// contract claims the shape of the text, two digits each for hours, minutes and
/// seconds within their ranges; which time it is depends on the clock and the
/// time zone.
#[verifier::external_body]
fn timestamp() -> (clock: String)
    ensures
        is_clock(clock@),
{
    chrono::Local::now().format("%H:%M:%S").to_string()
}

/// Records a message with the time of day, and returns the line to append to the
/// file and to show.
pub fn write(log: &mut Logger, level: &str, message: &str) -> (line: String)
    requires
        old(log)@.wf(),
    ensures
        is_clock(line@.subrange(1, 9)),
        line@ == log_line(line@.subrange(1, 9), level@, message@),
        final(log)@ == recorded(old(log)@, line@),
        final(log)@.wf(),
{
    let clock = timestamp();
    let line = write_at(log, &clock, level, message);
    proof {
        reveal_strlit("[");
        assert(line@.subrange(1, 9) =~= clock@);
    }
    line
}

/// The history after a run of lines.
pub open spec fn after_all(lines: Seq<Seq<char>>, run: Seq<Seq<char>>) -> Seq<Seq<char>>
    decreases run.len(),
{
    if run.len() == 0 {
        lines
    } else {
        remembered(after_all(lines, run.drop_last()), run.last())
    }
}

/// From the start, and again from the moment the log was set up, the history is
/// the last 200 lines in their order, or all of them while there are fewer.
pub proof fn law_history_is_the_last_lines(run: Seq<Seq<char>>)
    ensures
        after_all(Seq::empty(), run) == run.skip(
            if run.len() > HISTORY_LIMIT {
                run.len() - HISTORY_LIMIT
            } else {
                0
            },
        ),
    decreases run.len(),
{
    if run.len() > 0 {
        law_history_is_the_last_lines(run.drop_last());
        assert(after_all(Seq::empty(), run) =~= run.skip(
            if run.len() > HISTORY_LIMIT {
                run.len() - HISTORY_LIMIT
            } else {
                0
            },
        ));
    }
}

/// A line that was logged is the last of the history, with a log file and without
/// one.
pub proof fn law_line_is_remembered(log: LoggerView, line: Seq<char>)
    requires
        log.wf(),
    ensures
        recorded(log, line).lines.last() == line,
        recorded(log, line).path == log.path,
        recorded(log, line).wf(),
{
}

} // verus!

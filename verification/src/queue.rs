//! The work queue: its counters, what enters it, and how a job ends.

use std::collections::VecDeque;
use vstd::prelude::*;
use crate::desktop_notify::{send_notification, Toast, APP_ID};
use crate::file_watcher::{is_ncm, is_ncm_ending};
use crate::pipeline::{
    entry_view, error, Entry, EntryView, Job, Level, QueueProgress, QueueProgressView, QueueState,
};
use crate::text::{append_str, chars_of, decimal, push_number, string_of, string_view, texts};

verus! {

/// The work queue: the files that wait, and how many were finished in this
/// session.
pub struct Queue {
    waiting: VecDeque<String>,
    processed: usize,
}

/// The work queue.
pub struct QueueView {
    /// The files that wait, the next one first.
    pub waiting: Seq<Seq<char>>,
    /// How many files were finished in this session.
    pub processed: int,
}

impl View for Queue {
    type V = QueueView;

    closed spec fn view(&self) -> QueueView {
        QueueView { waiting: texts(self.waiting@), processed: self.processed as int }
    }
}

/// What happens to the queue.
pub enum QueueEvent {
    /// A file enters.
    Enter(Seq<char>),
    /// The next file leaves, to be worked on.
    Leave,
    /// The files that wait are dropped.
    Drop,
    /// A job ends.
    Finish { ok: bool },
}

/// The queue after an event. A file enters at the end and leaves at the front.
pub open spec fn after_event(q: QueueView, event: QueueEvent) -> QueueView {
    match event {
        QueueEvent::Enter(path) => QueueView { waiting: q.waiting.push(path), ..q },
        QueueEvent::Leave => if q.waiting.len() > 0 {
            QueueView { waiting: q.waiting.skip(1), ..q }
        } else {
            q
        },
        QueueEvent::Drop => QueueView { waiting: Seq::empty(), ..q },
        QueueEvent::Finish { ok } => QueueView {
            processed: if ok {
                q.processed + 1
            } else {
                q.processed
            },
            ..q
        },
    }
}

impl QueueView {
    /// An empty queue at the start of a session.
    pub open spec fn fresh() -> QueueView {
        QueueView { waiting: Seq::empty(), processed: 0 }
    }
}

impl Queue {
    /// An empty queue at the start of a session.
    pub fn new() -> (q: Queue)
        ensures
            q@ == QueueView::fresh(),
    {
        let q = Queue { waiting: VecDeque::new(), processed: 0 };
        assert(q@.waiting =~= Seq::<Seq<char>>::empty());
        q
    }

    /// How many files wait.
    pub fn pending(&self) -> (n: usize)
        ensures
            n == self@.waiting.len(),
    {
        self.waiting.len()
    }

    /// How many files were finished.
    pub fn processed(&self) -> (n: usize)
        ensures
            n == self@.processed,
    {
        self.processed
    }

    /// A file enters the queue. Returns how many wait now.
    pub fn enter(&mut self, path: String) -> (depth: usize)
        ensures
            final(self)@ == after_event(old(self)@, QueueEvent::Enter(path@)),
            depth == final(self)@.waiting.len(),
    {
        let ghost before = texts(self.waiting@);
        self.waiting.push_back(path);
        assert(texts(self.waiting@) =~= before.push(path@));
        self.waiting.len()
    }

    /// The next file leaves the queue, before any work is done on it. `None`
    /// means that none waits.
    pub fn leave(&mut self) -> (path: Option<String>)
        ensures
            final(self)@ == after_event(old(self)@, QueueEvent::Leave),
            match path {
                Some(p) => old(self)@.waiting.len() > 0 && p@ == old(self)@.waiting[0],
                None => old(self)@.waiting.len() == 0,
            },
    {
        let ghost before = texts(self.waiting@);
        let path = self.waiting.pop_front();
        assert(before.len() > 0 ==> texts(self.waiting@) =~= before.skip(1));
        path
    }

    /// Drops the files that wait. Returns how many there were.
    pub fn drop_waiting(&mut self) -> (n: usize)
        ensures
            n == old(self)@.waiting.len(),
            final(self)@ == after_event(old(self)@, QueueEvent::Drop),
            final(self)@.waiting.len() == 0,
            final(self)@.processed == old(self)@.processed,
    {
        let n = self.waiting.len();
        self.waiting.clear();
        assert(texts(self.waiting@) =~= Seq::<Seq<char>>::empty());
        n
    }

    /// A job ended. Returns how many files were finished.
    pub fn finish(&mut self, ok: bool) -> (done: usize)
        requires
            ok ==> old(self)@.processed < usize::MAX,
        ensures
            final(self)@ == after_event(old(self)@, QueueEvent::Finish { ok }),
            done == final(self)@.processed,
    {
        if ok {
            self.processed = self.processed + 1;
        }
        self.processed
    }
}

/// The queue after a run of events.
pub open spec fn after_events(q: QueueView, run: Seq<QueueEvent>) -> QueueView
    decreases run.len(),
{
    if run.len() == 0 {
        q
    } else {
        after_event(after_events(q, run.drop_last()), run.last())
    }
}

/// The files that enter during a run, in their order.
pub open spec fn entered(run: Seq<QueueEvent>) -> Seq<Seq<char>>
    decreases run.len(),
{
    if run.len() == 0 {
        Seq::empty()
    } else {
        match run.last() {
            QueueEvent::Enter(path) => entered(run.drop_last()).push(path),
            _ => entered(run.drop_last()),
        }
    }
}

/// The files that leave during a run, in their order: those that are worked on.
pub open spec fn started(q: QueueView, run: Seq<QueueEvent>) -> Seq<Seq<char>>
    decreases run.len(),
{
    if run.len() == 0 {
        Seq::empty()
    } else {
        let before = started(q, run.drop_last());
        let waiting = after_events(q, run.drop_last()).waiting;
        if run.last() is Leave && waiting.len() > 0 {
            before.push(waiting[0])
        } else {
            before
        }
    }
}

/// How many jobs end well during a run.
pub open spec fn successes(run: Seq<QueueEvent>) -> int
    decreases run.len(),
{
    if run.len() == 0 {
        0
    } else {
        successes(run.drop_last()) + if (run.last() matches QueueEvent::Finish { ok } && ok) {
            1int
        } else {
            0
        }
    }
}

/// Files are worked on in the order in which they entered: as long as nothing is
/// dropped, those that were worked on and those that wait are, one after the
/// other, those that waited at first and those that entered. And what is counted
/// as finished is what ended well.
pub proof fn law_files_keep_their_order(q: QueueView, run: Seq<QueueEvent>)
    requires
        forall|i: int| 0 <= i < run.len() ==> !((#[trigger] run[i]) is Drop),
    ensures
        started(q, run) + after_events(q, run).waiting == q.waiting + entered(run),
        after_events(q, run).processed == q.processed + successes(run),
    decreases run.len(),
{
    if run.len() == 0 {
        assert(started(q, run) + q.waiting =~= q.waiting + entered(run));
    } else {
        let shorter = run.drop_last();
        assert forall|i: int| 0 <= i < shorter.len() implies !((#[trigger] shorter[i]) is Drop) by {
            assert(shorter[i] == run[i]);
        }
        law_files_keep_their_order(q, shorter);
        assert(!(run[run.len() - 1] is Drop));
        let before = after_events(q, shorter);
        match run.last() {
            QueueEvent::Enter(path) => {
                assert(started(q, shorter) + before.waiting.push(path) =~= (started(q, shorter)
                    + before.waiting).push(path));
                assert(q.waiting + entered(shorter).push(path) =~= (q.waiting + entered(
                    shorter,
                )).push(path));
            },
            QueueEvent::Leave => {
                if before.waiting.len() > 0 {
                    assert(started(q, shorter).push(before.waiting[0]) + before.waiting.skip(1)
                        =~= started(q, shorter) + before.waiting);
                }
            },
            _ => {},
        }
    }
}

/// Files that are dropped are never worked on: whatever is worked on or waits
/// after a drop is a file that entered after it.
pub proof fn law_dropped_files_never_start(q: QueueView, run: Seq<QueueEvent>)
    ensures
        ({
            let dropped = after_event(q, QueueEvent::Drop);
            &&& forall|path: Seq<char>| #[trigger]
                started(dropped, run).contains(path) ==> entered(run).contains(path)
            &&& forall|path: Seq<char>| #[trigger]
                after_events(dropped, run).waiting.contains(path) ==> entered(run).contains(path)
        }),
    decreases run.len(),
{
    let dropped = after_event(q, QueueEvent::Drop);
    if run.len() > 0 {
        let shorter = run.drop_last();
        law_dropped_files_never_start(q, shorter);
        let before = after_events(dropped, shorter);
        let now = after_events(dropped, run);
        assert forall|path: Seq<char>| #[trigger]
            started(dropped, run).contains(path) implies entered(run).contains(path) by {
            let all = started(dropped, run);
            let k = choose|k: int| 0 <= k < all.len() && all[k] == path;
            if k < started(dropped, shorter).len() {
                assert(started(dropped, shorter)[k] == path);
                assert(started(dropped, shorter).contains(path));
            } else {
                assert(before.waiting[0] == path);
                assert(before.waiting.contains(path));
            }
            lemma_entered_grows(run, path);
        }
        assert forall|path: Seq<char>| #[trigger] now.waiting.contains(path) implies entered(
            run,
        ).contains(path) by {
            let k = choose|k: int| 0 <= k < now.waiting.len() && now.waiting[k] == path;
            match run.last() {
                QueueEvent::Enter(new) => {
                    if k < before.waiting.len() {
                        assert(before.waiting[k] == path);
                        assert(before.waiting.contains(path));
                        lemma_entered_grows(run, path);
                    } else {
                        assert(entered(run).last() == path);
                    }
                },
                QueueEvent::Leave => {
                    if before.waiting.len() > 0 {
                        assert(before.waiting[k + 1] == path);
                    }
                    assert(before.waiting.contains(path));
                    lemma_entered_grows(run, path);
                },
                QueueEvent::Drop => {},
                QueueEvent::Finish { .. } => {
                    assert(before.waiting.contains(path));
                    lemma_entered_grows(run, path);
                },
            }
        }
    }
}

proof fn lemma_entered_grows(run: Seq<QueueEvent>, path: Seq<char>)
    requires
        run.len() > 0,
        entered(run.drop_last()).contains(path),
    ensures
        entered(run).contains(path),
{
    let shorter = entered(run.drop_last());
    let k = choose|k: int| 0 <= k < shorter.len() && shorter[k] == path;
    assert(entered(run)[k] == path);
}

/// Why no file was queued.
#[derive(Clone, Copy, Debug, PartialEq, Eq, Structural)]
pub enum QueueError {
    /// None of the files can be processed.
    NothingToDo,
    /// The queue was not started.
    NotReady,
}

impl QueueError {
    pub open spec fn text(self) -> Seq<char> {
        match self {
            QueueError::NothingToDo => "没有可处理的 .ncm 文件"@,
            QueueError::NotReady => "队列未就绪"@,
        }
    }

    /// The text shown for the error.
    pub fn message(&self) -> (m: &'static str)
        ensures
            m@ == self.text(),
    {
        match self {
            QueueError::NothingToDo => "没有可处理的 .ncm 文件",
            QueueError::NotReady => "队列未就绪",
        }
    }
}

/// A path that was dropped on the window, with what is known of it.
pub struct Dropped {
    pub path: String,
    pub extension: Option<String>,
    pub is_file: bool,
}

/// Whether a dropped path is queued: it is a file, and its extension is `ncm`.
pub open spec fn is_queued(d: Dropped) -> bool {
    is_ncm_ending(string_view(d.extension)) && d.is_file
}

/// The paths that are queued, in their order.
pub open spec fn queued_paths(dropped: Seq<Dropped>) -> Seq<Seq<char>>
    decreases dropped.len(),
{
    if dropped.len() == 0 {
        Seq::empty()
    } else {
        let before = queued_paths(dropped.drop_last());
        if is_queued(dropped.last()) {
            before.push(dropped.last().path@)
        } else {
            before
        }
    }
}

/// Picks the files to queue from what was dropped on the window. `ready` says
/// whether the queue was started.
pub fn enqueue_files(dropped: &Vec<Dropped>, ready: bool) -> (r: Result<Vec<String>, QueueError>)
    ensures
        match r {
            Ok(paths) => ready && texts(paths@) == queued_paths(dropped@) && paths@.len() > 0,
            Err(QueueError::NothingToDo) => queued_paths(dropped@).len() == 0,
            Err(QueueError::NotReady) => queued_paths(dropped@).len() > 0 && !ready,
        },
{
    let mut paths: Vec<String> = Vec::new();
    let mut i: usize = 0;
    assert(texts(paths@) =~= queued_paths(dropped@.take(0)));
    while i < dropped.len()
        invariant
            i <= dropped@.len(),
            texts(paths@) == queued_paths(dropped@.take(i as int)),
        decreases dropped.len() - i,
    {
        let ghost before = texts(paths@);
        assert(dropped@.take(i + 1).drop_last() =~= dropped@.take(i as int));
        let d = &dropped[i];
        let extension = match &d.extension {
            Some(ext) => Some(ext.as_str()),
            None => None,
        };
        if is_ncm(extension) && d.is_file {
            let path = d.path.as_str().to_string();
            paths.push(path);
            assert(texts(paths@) =~= before.push(path@));
        }
        i += 1;
    }
    assert(dropped@.take(dropped@.len() as int) =~= dropped@);
    assert(texts(paths@).len() == paths@.len());
    if paths.len() == 0 {
        Err(QueueError::NothingToDo)
    } else if !ready {
        Err(QueueError::NotReady)
    } else {
        Ok(paths)
    }
}

fn depth_message(front: &str, filename: &str, depth: usize) -> (m: String)
    ensures
        m@ == front@ + filename@ + " (排队 "@ + decimal(depth as nat) + ")"@,
{
    let mut m = chars_of(front);
    append_str(&mut m, filename);
    append_str(&mut m, " (排队 ");
    push_number(&mut m, depth as u64);
    append_str(&mut m, ")");
    string_of(&m)
}

/// The line logged when a new download is queued.
pub fn found_message(filename: &str, depth: usize) -> (m: String)
    ensures
        m@ == "新文件加入队列: "@ + filename@ + " (排队 "@ + decimal(depth as nat) + ")"@,
{
    depth_message("新文件加入队列: ", filename, depth)
}

/// The line logged when a dropped file is queued.
pub fn added_message(filename: &str, depth: usize) -> (m: String)
    ensures
        m@ == "手动添加: "@ + filename@ + " (排队 "@ + decimal(depth as nat) + ")"@,
{
    depth_message("手动添加: ", filename, depth)
}

/// What is said about a job that is skipped since its output directory is gone.
pub open spec fn skip_entry(filename: Seq<char>, output: Seq<char>) -> EntryView {
    error("输出目录不存在，跳过 "@ + filename + ": "@ + output)
}

/// The report on a job that is skipped.
pub open spec fn skip_report(filename: Seq<char>, queue: QueueView) -> QueueProgressView {
    QueueProgressView {
        state: QueueState::Failed,
        file: filename,
        status: "输出目录不存在"@,
        progress: 0,
        queued: queue.waiting.len() as usize,
        processed: queue.processed as usize,
        total: None,
    }
}

fn skip_job(filename: &str, output: &str, queue: &Queue) -> (s: (Entry, QueueProgress))
    ensures
        s.0@ == skip_entry(filename@, output@),
        s.1@ == skip_report(filename@, queue@),
{
    let mut m = chars_of("输出目录不存在，跳过 ");
    append_str(&mut m, filename);
    append_str(&mut m, ": ");
    append_str(&mut m, output);
    let entry = Entry { level: Level::Error, message: string_of(&m) };
    let report = QueueProgress {
        state: QueueState::Failed,
        file: filename.to_string(),
        status: "输出目录不存在".to_string(),
        progress: 0,
        queued: queue.pending(),
        processed: queue.processed(),
        total: None,
    };
    (entry, report)
}

/// How a job begins.
pub enum Begin {
    /// It is run.
    Run(Job),
    /// It is skipped, with a message for the log and a report for the window.
    Skip(Entry, QueueProgress),
}

/// Begins the job for a file that left the queue. It is skipped where the output
/// directory does not exist.
pub fn begin_job(
    queue: &Queue,
    input: String,
    filename: String,
    output: &str,
    output_is_dir: bool,
) -> (begin: Begin)
    ensures
        match begin {
            Begin::Run(job) => output_is_dir && job.input == input && job.filename == filename
                && job.pending == queue@.waiting.len() && job.processed == queue@.processed,
            Begin::Skip(entry, report) => !output_is_dir && entry@ == skip_entry(
                filename@,
                output@,
            ) && report@ == skip_report(filename@, queue@),
        },
{
    if output_is_dir {
        let pending = queue.pending();
        Begin::Run(Job { input, filename, pending, processed: queue.processed() })
    } else {
        let (entry, report) = skip_job(&filename, output, queue);
        Begin::Skip(entry, report)
    }
}

/// What is done about a job that ended.
pub struct JobEnd {
    /// The notification, if notifications are on.
    pub toast: Option<Toast>,
    /// The message for the log, if the job failed.
    pub entry: Option<Entry>,
    /// The lifetime total to save, if it changed.
    pub total: Option<u64>,
    /// The report for the window.
    pub report: QueueProgress,
}

/// Whether the notification is right for a job that ended: it names the output,
/// or the input if the job failed.
pub open spec fn end_toast(
    toast: Option<Toast>,
    result: Result<String, String>,
    filename: Seq<char>,
    notify: bool,
    sound: bool,
) -> bool {
    match toast {
        None => !notify,
        Some(t) => {
            let detail = match result {
                Ok(output) => output@,
                Err(_) => filename,
            };
            &&& notify
            &&& t.app_id@ == APP_ID@
            &&& t.event@ == if result is Ok {
                "处理完成"@
            } else {
                "处理失败"@
            }
            &&& string_view(t.detail) == if detail.len() == 0 {
                None
            } else {
                Some(detail)
            }
            &&& t.sound == sound
        },
    }
}

/// The message about a job that failed.
pub open spec fn end_entry(result: Result<String, String>, filename: Seq<char>) -> Option<EntryView> {
    match result {
        Ok(_) => None,
        Err(e) => Some(error("处理失败 "@ + filename + ": "@ + e@)),
    }
}

/// The lifetime total after a job, where the total before it is known. A failed
/// job does not change it, and it stops at its largest value.
pub open spec fn next_total(ok: bool, total: Option<u64>) -> Option<u64> {
    match total {
        Some(n) if ok => Some(
            if n < u64::MAX {
                (n + 1) as u64
            } else {
                n
            },
        ),
        _ => None,
    }
}

/// The report on a job that ended, with the counters after it.
pub open spec fn end_report(
    result: Result<String, String>,
    filename: Seq<char>,
    queue: QueueView,
    total: Option<u64>,
) -> QueueProgressView {
    QueueProgressView {
        state: if result is Ok {
            QueueState::Completed
        } else {
            QueueState::Failed
        },
        file: filename,
        status: match result {
            Ok(_) => "已完成"@,
            Err(e) => "失败: "@ + e@,
        },
        progress: if result is Ok {
            100
        } else {
            0
        },
        queued: queue.waiting.len() as usize,
        processed: queue.processed as usize,
        total: Some(
            match total {
                Some(n) => n,
                None => 0,
            },
        ),
    }
}

/// Closes a job. `result` holds the name of the output, or the error; `total` is
/// the lifetime total before the job, where it is known.
pub fn close_job(
    queue: &mut Queue,
    result: &Result<String, String>,
    filename: &str,
    notify: bool,
    sound: bool,
    total: Option<u64>,
) -> (end: JobEnd)
    requires
        result is Ok ==> old(queue)@.processed < usize::MAX,
    ensures
        final(queue)@ == after_event(old(queue)@, QueueEvent::Finish { ok: result is Ok }),
        end_toast(end.toast, *result, filename@, notify, sound),
        entry_view(end.entry) == end_entry(*result, filename@),
        end.total == next_total(result is Ok, total),
        end.report@ == end_report(*result, filename@, final(queue)@, end.total),
{
    match result {
        Ok(output) => {
            let toast = if notify {
                Some(send_notification("处理完成", output, sound))
            } else {
                None
            };
            let next = match total {
                Some(n) => Some(n.saturating_add(1)),
                None => None,
            };
            let shown: u64 = match next {
                Some(n) => n,
                None => 0,
            };
            let processed = queue.finish(true);
            let report = QueueProgress {
                state: QueueState::Completed,
                file: filename.to_string(),
                status: "已完成".to_string(),
                progress: 100,
                queued: queue.pending(),
                processed,
                total: Some(shown),
            };
            JobEnd { toast, entry: None, total: next, report }
        },
        Err(e) => {
            let toast = if notify {
                Some(send_notification("处理失败", filename, sound))
            } else {
                None
            };
            let mut m = chars_of("处理失败 ");
            append_str(&mut m, filename);
            append_str(&mut m, ": ");
            append_str(&mut m, e);
            let mut status = chars_of("失败: ");
            append_str(&mut status, e);
            let processed = queue.finish(false);
            let report = QueueProgress {
                state: QueueState::Failed,
                file: filename.to_string(),
                status: string_of(&status),
                progress: 0,
                queued: queue.pending(),
                processed,
                total: Some(0),
            };
            JobEnd {
                toast,
                entry: Some(Entry { level: Level::Error, message: string_of(&m) }),
                total: None,
                report,
            }
        },
    }
}

} // verus!

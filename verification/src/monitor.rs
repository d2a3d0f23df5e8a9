//! Monitoring the download folder: when it may start, and what it says.

use vstd::prelude::*;
use crate::desktop_notify::{send_notification, Toast, APP_ID};
use crate::paths::{join_path, path_in};
use crate::queue::{after_event, Queue, QueueEvent};
use crate::settings::{Config, ConfigView};
use crate::text::{
    append_chars, append_str, char_views, chars_of, eq_ignoring_case, join, joined,
    same_ignoring_case, string_of, string_view, text_view,
};

verus! {

/// What was set when monitoring started. `F` is the flag that stops it.
///
/// The notification at the end names the directory that was monitored, whatever
/// the settings say by then.
pub struct Session<F> {
    pub stop: F,
    pub watch_dir: String,
    pub notify: bool,
    pub sound: bool,
}

impl<F> Session<F> {
    /// Sound belongs to a notification: without one there is none.
    pub open spec fn wf(self) -> bool {
        self.sound ==> self.notify
    }

    /// The session for the settings at the start.
    pub fn new<N>(stop: F, watch_dir: String, cfg: &Config<N>) -> (s: Session<F>)
        ensures
            s.stop == stop,
            s.watch_dir == watch_dir,
            s.notify == cfg.enable_notification,
            s.sound == (cfg.enable_notification && cfg.enable_sound),
            s.wf(),
    {
        Session {
            stop,
            watch_dir,
            notify: cfg.enable_notification,
            sound: cfg.enable_notification && cfg.enable_sound,
        }
    }
}

/// The monitoring of the download folder: the session that is running, if any.
/// It holds the flag that stops it.
pub struct Monitor<F> {
    pub session: Option<Session<F>>,
}

impl<F> Monitor<F> {
    /// Nothing is monitored.
    pub fn new() -> (m: Monitor<F>)
        ensures
            m.session is None,
    {
        Monitor { session: None }
    }
}

/// Whether monitoring is active: there is a session, and its flag was not raised.
pub open spec fn active<F>(monitor: Monitor<F>, raised: bool) -> bool {
    monitor.session is Some && !raised
}

/// Whether monitoring is active. `raised` is what the flag of the session says;
/// without a session it does not matter.
pub fn is_monitoring<F>(monitor: &Monitor<F>, raised: bool) -> (yes: bool)
    ensures
        yes == active(*monitor, raised),
{
    monitor.session.is_some() && !raised
}

/// Whether a folder has the name of the download folder, in any case.
pub open spec fn is_download_name(file_name: Option<Seq<char>>) -> bool {
    match file_name {
        Some(name) => same_ignoring_case(name, "VipSongsDownload"@),
        None => false,
    }
}

/// The folder that holds the downloads: the configured folder if it is named
/// `VipSongsDownload`, in any case, and exists, or else the folder of that name
/// in it, if that exists.
pub open spec fn download_folder(
    configured: Seq<char>,
    file_name: Option<Seq<char>>,
    is_dir: bool,
    nested_is_dir: bool,
    sep: char,
) -> Option<Seq<char>> {
    if is_download_name(file_name) && is_dir {
        Some(configured)
    } else if nested_is_dir {
        Some(path_in(configured, "VipSongsDownload"@, sep))
    } else {
        None
    }
}

/// The path where the download folder would be inside the configured one.
pub fn nested_download_dir(configured: &str, sep: char) -> (path: String)
    ensures
        path@ == path_in(configured@, "VipSongsDownload"@, sep),
{
    join_path(configured, "VipSongsDownload", sep)
}

/// Finds the folder that holds the downloads. `file_name` is the last part of
/// the configured path, and the two flags say whether that path and the one
/// nested in it are directories.
pub fn resolve_download_dir_inner(
    configured: &str,
    file_name: Option<&str>,
    is_dir: bool,
    nested_is_dir: bool,
    sep: char,
) -> (dir: Option<String>)
    ensures
        string_view(dir) == download_folder(
            configured@,
            text_view(file_name),
            is_dir,
            nested_is_dir,
            sep,
        ),
{
    let named = match file_name {
        Some(name) => eq_ignoring_case(&chars_of(name), &chars_of("VipSongsDownload")),
        None => false,
    };
    if named && is_dir {
        return Some(configured.to_string());
    }
    if nested_is_dir {
        return Some(nested_download_dir(configured, sep));
    }
    None
}

/// Why monitoring cannot start.
pub enum StartError {
    AlreadyRunning,
    /// The download or the output directory is empty.
    NoDirectories,
    /// The output directory does not exist.
    NoOutput { dir: String },
    /// There is no download folder.
    NoDownloads { dir: String },
}

/// Why monitoring cannot start.
pub enum Refusal {
    AlreadyRunning,
    NoDirectories,
    NoOutput { dir: Seq<char> },
    NoDownloads { dir: Seq<char> },
}

impl View for StartError {
    type V = Refusal;

    open spec fn view(&self) -> Refusal {
        match self {
            StartError::AlreadyRunning => Refusal::AlreadyRunning,
            StartError::NoDirectories => Refusal::NoDirectories,
            StartError::NoOutput { dir } => Refusal::NoOutput { dir: dir@ },
            StartError::NoDownloads { dir } => Refusal::NoDownloads { dir: dir@ },
        }
    }
}

impl StartError {
    pub open spec fn text(self) -> Seq<char> {
        match self {
            StartError::AlreadyRunning => "监控已经在运行"@,
            StartError::NoDirectories => "下载目录和输出目录不能为空"@,
            StartError::NoOutput { dir } => "输出目录不存在: "@ + dir@,
            StartError::NoDownloads { dir } =>
            "下载目录不存在或其中没有 VipSongsDownload 文件夹: "@ + dir@,
        }
    }

    /// The text shown for the error.
    pub fn message(&self) -> (m: String)
        ensures
            m@ == self.text(),
    {
        match self {
            StartError::AlreadyRunning => "监控已经在运行".to_string(),
            StartError::NoDirectories => "下载目录和输出目录不能为空".to_string(),
            StartError::NoOutput { dir } => {
                let mut m = chars_of("输出目录不存在: ");
                append_str(&mut m, dir);
                string_of(&m)
            },
            StartError::NoDownloads { dir } => {
                let mut m = chars_of("下载目录不存在或其中没有 VipSongsDownload 文件夹: ");
                append_str(&mut m, dir);
                string_of(&m)
            },
        }
    }

    /// The line logged for the error.
    pub fn log_message(&self) -> (m: String)
        ensures
            m@ == "启动监控失败: "@ + self.text(),
    {
        let mut m = chars_of("启动监控失败: ");
        append_str(&mut m, &self.message());
        string_of(&m)
    }
}

/// Why monitoring cannot start, if there is a reason. `running` says whether it
/// is active already; `output_is_dir` whether the output directory exists, and
/// `found` whether there is a download folder. The first reason counts.
pub open spec fn refused<N>(
    running: bool,
    cfg: ConfigView<N>,
    output_is_dir: bool,
    found: bool,
) -> Option<Refusal> {
    if running {
        Some(Refusal::AlreadyRunning)
    } else if cfg.download_dir.len() == 0 || cfg.output_dir.len() == 0 {
        Some(Refusal::NoDirectories)
    } else if !output_is_dir {
        Some(Refusal::NoOutput { dir: cfg.output_dir })
    } else if !found {
        Some(Refusal::NoDownloads { dir: cfg.download_dir })
    } else {
        None
    }
}

fn check_start<N>(
    running: bool,
    cfg: &Config<N>,
    output_is_dir: bool,
    watch_dir: Option<String>,
) -> (r: Result<String, StartError>)
    ensures
        match r {
            Err(e) => refused(running, cfg@, output_is_dir, watch_dir is Some) == Some(e@),
            Ok(dir) => refused(running, cfg@, output_is_dir, watch_dir is Some) is None && watch_dir
                == Some(dir),
        },
{
    if running {
        return Err(StartError::AlreadyRunning);
    }
    let download = chars_of(&cfg.download_dir);
    let output = chars_of(&cfg.output_dir);
    if download.len() == 0 || output.len() == 0 {
        return Err(StartError::NoDirectories);
    }
    if !output_is_dir {
        return Err(StartError::NoOutput { dir: cfg.output_dir.as_str().to_string() });
    }
    match watch_dir {
        Some(dir) => Ok(dir),
        None => Err(StartError::NoDownloads { dir: cfg.download_dir.as_str().to_string() }),
    }
}

/// What a notification of a session says: the event, the monitored directory
/// unless that is empty, and whether there is a sound.
pub open spec fn session_toast<F>(toast: Option<Toast>, event: Seq<char>, session: Session<F>) -> bool {
    match toast {
        Some(t) => session.notify && t.app_id@ == APP_ID@ && t.event@ == event && t.sound
            == session.sound && string_view(t.detail) == if session.watch_dir@.len() == 0 {
            None
        } else {
            Some(session.watch_dir@)
        },
        None => !session.notify,
    }
}

fn start_toast<F>(session: &Session<F>) -> (toast: Option<Toast>)
    ensures
        session_toast(toast, "监控已启动"@, *session),
{
    if session.notify {
        Some(send_notification("监控已启动", &session.watch_dir, session.sound))
    } else {
        None
    }
}

/// What to do when monitoring stopped.
pub struct Stopped<F> {
    /// The flag to raise, if monitoring was running.
    pub stop: Option<F>,
    /// The line for the log, if monitoring was running.
    pub log: Option<&'static str>,
    /// The notification, if monitoring was running with notifications on.
    pub toast: Option<Toast>,
}

/// Stops monitoring. The session ends, and the files that wait are dropped; the
/// file that is being worked on has left the queue and is finished. Where nothing
/// is monitored, nothing happens.
pub fn stop_monitor<F>(monitor: &mut Monitor<F>, queue: &mut Queue) -> (s: Stopped<F>)
    ensures
        final(monitor).session is None,
        match old(monitor).session {
            Some(session) => {
                &&& s.stop == Some(session.stop)
                &&& text_view(s.log) == Some(
                    "监控已停止 (当前正在处理的文件会继续完成，等待中的队列已丢弃)"@,
                )
                &&& session_toast(s.toast, "监控已停止"@, session)
                &&& final(queue)@ == after_event(old(queue)@, QueueEvent::Drop)
            },
            None => {
                &&& s.stop is None
                &&& s.log is None
                &&& s.toast is None
                &&& *final(queue) == *old(queue)
            },
        },
{
    match monitor.session.take() {
        None => Stopped { stop: None, log: None, toast: None },
        Some(session) => {
            let _ = queue.drop_waiting();
            let toast = if session.notify {
                Some(send_notification("监控已停止", &session.watch_dir, session.sound))
            } else {
                None
            };
            Stopped {
                stop: Some(session.stop),
                log: Some("监控已停止 (当前正在处理的文件会继续完成，等待中的队列已丢弃)"),
                toast,
            }
        },
    }
}

/// Ends monitoring and drops the files that wait, since the application quits.
/// Returns the flag to raise, if monitoring was running.
pub fn stop_monitor_inner<F>(monitor: &mut Monitor<F>, queue: &mut Queue) -> (stop: Option<F>)
    ensures
        final(monitor).session is None,
        final(queue)@ == after_event(old(queue)@, QueueEvent::Drop),
        stop == match old(monitor).session {
            Some(session) => Some(session.stop),
            None => None,
        },
{
    let _ = queue.drop_waiting();
    match monitor.session.take() {
        Some(session) => Some(session.stop),
        None => None,
    }
}

/// Takes back a session whose folder could not be watched, so that monitoring
/// does not count as active. Returns the flag to raise.
pub fn start_failed<F>(monitor: &mut Monitor<F>) -> (stop: Option<F>)
    ensures
        final(monitor).session is None,
        stop == match old(monitor).session {
            Some(session) => Some(session.stop),
            None => None,
        },
{
    match monitor.session.take() {
        Some(session) => Some(session.stop),
        None => None,
    }
}

/// The line logged when monitoring started.
pub open spec fn started_text(watch_dir: Seq<char>, output: Seq<char>) -> Seq<char> {
    "监控已启动 | 监控目录: "@ + watch_dir + " | 输出目录: "@ + output
}

fn started_message(watch_dir: &str, output: &str) -> (m: String)
    ensures
        m@ == started_text(watch_dir@, output@),
{
    let mut m = chars_of("监控已启动 | 监控目录: ");
    append_str(&mut m, watch_dir);
    append_str(&mut m, " | 输出目录: ");
    append_str(&mut m, output);
    string_of(&m)
}

/// The name, if it is switched on.
pub open spec fn listed(on: bool, name: Seq<char>) -> Seq<Seq<char>> {
    if on {
        seq![name]
    } else {
        Seq::empty()
    }
}

/// The optional steps that are switched on.
pub open spec fn features<N>(cfg: ConfigView<N>) -> Seq<Seq<char>> {
    listed(cfg.minimal_metadata, "极简模式"@) + listed(
        cfg.embed_lrc,
        "写入 LRC 歌词文件"@,
    ) + listed(cfg.shred_mode, "删除原始文件"@)
}

fn push_name(list: &mut Vec<Vec<char>>, on: bool, name: &str)
    ensures
        char_views(final(list)@) == char_views(old(list)@) + listed(on, name@),
{
    let ghost before = char_views(list@);
    if on {
        list.push(chars_of(name));
    }
    assert(char_views(list@) =~= before + listed(on, name@));
}

/// The line logged about the optional steps, if any is switched on.
pub open spec fn features_text<N>(cfg: ConfigView<N>) -> Option<Seq<char>> {
    if features(cfg).len() == 0 {
        None
    } else {
        Some("输出设置: "@ + joined(features(cfg), "、"@))
    }
}

fn features_message<N>(cfg: &Config<N>) -> (m: Option<String>)
    ensures
        string_view(m) == features_text(cfg@),
{
    let mut list: Vec<Vec<char>> = Vec::new();
    push_name(&mut list, cfg.minimal_metadata, "极简模式");
    push_name(&mut list, cfg.embed_lrc, "写入 LRC 歌词文件");
    push_name(&mut list, cfg.shred_mode, "删除原始文件");
    assert(char_views(list@) =~= features(cfg@));
    assert(char_views(list@).len() == list@.len());
    if list.len() == 0 {
        return None;
    }
    let mut m = chars_of("输出设置: ");
    append_chars(&mut m, &join(&list, &chars_of("、")));
    Some(string_of(&m))
}

/// What to do when monitoring starts.
pub struct Started {
    /// The folder to watch.
    pub watch_dir: String,
    /// The notification, if notifications are on.
    pub toast: Option<Toast>,
    /// The line for the log once the folder is watched.
    pub log: String,
    /// The line about the optional steps, if any is switched on.
    pub features: Option<String>,
}

/// Starts monitoring, or says why it cannot start. `raised` is what the flag of
/// the session says, if there is one; `output_is_dir` says whether the output
/// directory exists; `watch_dir` is the download folder, if it was found; `stop`
/// is the flag of the new session.
pub fn start_monitor<N, F>(
    monitor: &mut Monitor<F>,
    raised: bool,
    cfg: &Config<N>,
    output_is_dir: bool,
    watch_dir: Option<String>,
    stop: F,
) -> (r: Result<Started, StartError>)
    ensures
        match r {
            Err(e) => refused(
                active(*old(monitor), raised),
                cfg@,
                output_is_dir,
                watch_dir is Some,
            ) == Some(e@) && *final(monitor) == *old(monitor),
            Ok(s) => {
                &&& refused(
                    active(*old(monitor), raised),
                    cfg@,
                    output_is_dir,
                    watch_dir is Some,
                ) is None
                &&& final(monitor).session matches Some(session)
                &&& watch_dir == Some(session.watch_dir)
                &&& session.stop == stop
                &&& session.notify == cfg.enable_notification
                &&& session.sound == (cfg.enable_notification && cfg.enable_sound)
                &&& session.wf()
                &&& s.watch_dir@ == session.watch_dir@
                &&& session_toast(s.toast, "监控已启动"@, session)
                &&& s.log@ == started_text(session.watch_dir@, cfg@.output_dir)
                &&& string_view(s.features) == features_text(cfg@)
            },
        },
{
    let running = is_monitoring(monitor, raised);
    match check_start(running, cfg, output_is_dir, watch_dir) {
        Err(e) => Err(e),
        Ok(dir) => {
            let watch_dir = dir.as_str().to_string();
            let session = Session::new(stop, dir, cfg);
            let toast = start_toast(&session);
            let log = started_message(&watch_dir, &cfg.output_dir);
            let features = features_message(cfg);
            monitor.session = Some(session);
            Ok(Started { watch_dir, toast, log, features })
        },
    }
}

/// Picking the download folder or the folder around it leads to the same place:
/// once the folder was found, it is found again from itself.
pub proof fn law_download_folder_is_stable(
    configured: Seq<char>,
    file_name: Option<Seq<char>>,
    is_dir: bool,
    nested_is_dir: bool,
    deeper: bool,
    sep: char,
)
    requires
        download_folder(configured, file_name, is_dir, nested_is_dir, sep) is Some,
    ensures
        ({
            let found = download_folder(configured, file_name, is_dir, nested_is_dir, sep)->Some_0;
            let name = if is_dir && is_download_name(file_name) {
                file_name
            } else {
                Some("VipSongsDownload"@)
            };
            download_folder(found, name, true, deeper, sep) == Some(found)
        }),
{
}

} // verus!

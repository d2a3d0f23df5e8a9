//! What holds of the decisions of the application.

use vstd::prelude::*;
use crate::desktop_notify::{found_file, registration, Toast};
use crate::file_watcher::is_ncm_ending;
use crate::logger::log_line;
use crate::monitor::{
    active, download_folder, features, features_text, refused, session_toast, started_text, Monitor, Refusal,
    Session,
};
use crate::paths::path_in;
use crate::pipeline::{
    answers, entry_of, following, rest_of, status_of, Embedding, Event, Level, Options, QueueState,
    Step,
};
use crate::queue::{
    end_entry, end_report, end_toast, next_total, queued_paths, skip_entry, skip_report, Dropped,
    QueueView,
};
use crate::settings::{
    accepted, change_text, changes, differences, export_dir, is_first_root, names_output, new_settings,
    placement, remembered, setting_names, shown, ConfigView, Placement, WindowState,
};
use crate::shell::{action_of, cleaned, removed_keys, MenuAction};
use crate::text::{decimal, joined, lines, same_ignoring_case, string_view, trimmed};

verus! {

/// New settings delete nothing, trim nothing and start nothing on their own. They
/// notify with sound, and the window has no place yet.
pub proof fn law_new_settings<N>(output_dir: Seq<char>)
    ensures
        ({
            let cfg = new_settings::<N>(output_dir);
            &&& cfg.output_dir == output_dir && cfg.download_dir.len() == 0
            &&& !cfg.shred_mode && !cfg.minimal_metadata && !cfg.embed_lrc
            &&& !cfg.always_on_top && !cfg.close_to_tray && !cfg.silent_start
            &&& cfg.enable_notification && cfg.enable_sound && cfg.enable_tray_flash
            &&& cfg.first_run && cfg.total_processed == 0 && cfg.window is None
            &&& cfg.theme == "system"@
        }),
{
}

/// The directory of new settings lies in the downloads of the user, or in those of
/// the current directory where the user is not known.
pub proof fn law_export_directory(profile: Seq<char>, sep: char)
    ensures
        export_dir(Some(profile), sep) == path_in(
            path_in(profile, "Downloads"@, sep),
            "NADT Export"@,
            sep,
        ),
        export_dir(None, sep) == export_dir(Some("."@), sep),
{
}

/// The settings of the user are taken over as they were submitted.
pub proof fn law_submitted_settings_are_taken<N>(
    current: ConfigView<N>,
    submitted: ConfigView<N>,
)
    ensures
        ({
            let cfg = accepted(current, submitted);
            &&& cfg.download_dir == submitted.download_dir
            &&& cfg.output_dir == submitted.output_dir
            &&& cfg.enable_notification == submitted.enable_notification
            &&& cfg.enable_sound == submitted.enable_sound
            &&& cfg.enable_tray_flash == submitted.enable_tray_flash
            &&& cfg.minimal_metadata == submitted.minimal_metadata
            &&& cfg.embed_lrc == submitted.embed_lrc
            &&& cfg.shred_mode == submitted.shred_mode
            &&& cfg.first_run == submitted.first_run
            &&& cfg.always_on_top == submitted.always_on_top
            &&& cfg.close_to_tray == submitted.close_to_tray
            &&& cfg.silent_start == submitted.silent_start
            &&& cfg.theme == submitted.theme
        }),
{
}

/// The line about one change.
pub open spec fn change_line(name: Seq<char>, before: Seq<char>, after: Seq<char>) -> Seq<char> {
    name + seq![':', ' '] + before + seq![' ', '→', ' '] + after
}

proof fn lemma_difference_is_listed(
    names: Seq<Seq<char>>,
    before: Seq<Seq<char>>,
    after: Seq<Seq<char>>,
    n: nat,
    k: int,
)
    requires
        0 <= k < n,
        before[k] != after[k],
    ensures
        differences(names, before, after, n).contains(change_line(names[k], before[k], after[k])),
    decreases n,
{
    let list = differences(names, before, after, n);
    let m = n - 1;
    if k == m {
        reveal_strlit(": ");
        reveal_strlit(" → ");
        assert(": "@ =~= seq![':', ' ']);
        assert(" → "@ =~= seq![' ', '→', ' ']);
        assert(list.last() == change_line(names[k], before[k], after[k]));
    } else {
        lemma_difference_is_listed(names, before, after, m as nat, k);
        let earlier = differences(names, before, after, m as nat);
        let i = choose|i: int|
            0 <= i < earlier.len() && earlier[i] == change_line(names[k], before[k], after[k]);
        assert(list[i] == earlier[i]);
    }
}

proof fn lemma_listed_is_a_difference(
    names: Seq<Seq<char>>,
    before: Seq<Seq<char>>,
    after: Seq<Seq<char>>,
    n: nat,
    i: int,
)
    requires
        0 <= i < differences(names, before, after, n).len(),
    ensures
        exists|k: int|
            0 <= k < n && before[k] != after[k] && differences(names, before, after, n)[i]
                == change_line(#[trigger] names[k], before[k], after[k]),
    decreases n,
{
    let list = differences(names, before, after, n);
    let m = n - 1;
    let earlier = differences(names, before, after, m as nat);
    if i < earlier.len() {
        assert(list[i] == earlier[i]);
        lemma_listed_is_a_difference(names, before, after, m as nat, i);
    } else {
        reveal_strlit(": ");
        reveal_strlit(" → ");
        assert(": "@ =~= seq![':', ' ']);
        assert(" → "@ =~= seq![' ', '→', ' ']);
        assert(list[i] == change_line(names[m], before[m], after[m]));
    }
}

/// `true` or `false`.
pub open spec fn flag(on: bool) -> Seq<char> {
    if on {
        "true"@
    } else {
        "false"@
    }
}

/// The name and the value of each setting of the user.
pub open spec fn setting<N>(cfg: ConfigView<N>, k: int) -> (Seq<char>, Seq<char>) {
    if k == 0 {
        ("download_dir"@, cfg.download_dir)
    } else if k == 1 {
        ("output_dir"@, cfg.output_dir)
    } else if k == 2 {
        ("theme"@, cfg.theme)
    } else if k == 3 {
        ("enable_notification"@, flag(cfg.enable_notification))
    } else if k == 4 {
        ("enable_sound"@, flag(cfg.enable_sound))
    } else if k == 5 {
        ("enable_tray_flash"@, flag(cfg.enable_tray_flash))
    } else if k == 6 {
        ("minimal_metadata"@, flag(cfg.minimal_metadata))
    } else if k == 7 {
        ("embed_lrc"@, flag(cfg.embed_lrc))
    } else if k == 8 {
        ("shred_mode"@, flag(cfg.shred_mode))
    } else if k == 9 {
        ("always_on_top"@, flag(cfg.always_on_top))
    } else if k == 10 {
        ("close_to_tray"@, flag(cfg.close_to_tray))
    } else {
        ("silent_start"@, flag(cfg.silent_start))
    }
}

proof fn lemma_setting<N>(cfg: ConfigView<N>, k: int)
    requires
        0 <= k < 12,
    ensures
        setting_names().len() == 12,
        setting(cfg, k) == (setting_names()[k], shown(cfg)[k]),
{
    if k < 6 {
        assert(k == 0 || k == 1 || k == 2 || k == 3 || k == 4 || k == 5);
    } else {
        assert(k == 6 || k == 7 || k == 8 || k == 9 || k == 10 || k == 11);
    }
}

/// Each change of a setting is listed under the name of the setting, with its value
/// before and after.
pub proof fn law_changes_are_listed<N>(a: ConfigView<N>, b: ConfigView<N>, k: int)
    requires
        0 <= k < 12,
        setting(a, k) != setting(b, k),
    ensures
        changes(a, b).contains(change_line(setting(a, k).0, setting(a, k).1, setting(b, k).1)),
{
    lemma_setting(a, k);
    lemma_setting(b, k);
    lemma_difference_is_listed(setting_names(), shown(a), shown(b), 12, k);
}

/// Nothing is listed but changes of settings.
pub proof fn law_only_changes_are_listed<N>(a: ConfigView<N>, b: ConfigView<N>, i: int)
    requires
        0 <= i < changes(a, b).len(),
    ensures
        changes(a, b).len() <= 12,
        exists|k: int|
            0 <= k < 12 && #[trigger] setting(a, k) != setting(b, k) && changes(a, b)[i]
                == change_line(setting(a, k).0, setting(a, k).1, setting(b, k).1),
{
    lemma_setting(a, 0);
    lemma_no_more_than(setting_names(), shown(a), shown(b), 12);
    lemma_listed_is_a_difference(setting_names(), shown(a), shown(b), 12, i);
    let k = choose|k: int|
        0 <= k < 12 && shown(a)[k] != shown(b)[k] && changes(a, b)[i] == change_line(
            #[trigger] setting_names()[k],
            shown(a)[k],
            shown(b)[k],
        );
    lemma_setting(a, k);
    lemma_setting(b, k);
}

proof fn lemma_no_more_than(
    names: Seq<Seq<char>>,
    before: Seq<Seq<char>>,
    after: Seq<Seq<char>>,
    n: nat,
)
    ensures
        differences(names, before, after, n).len() <= n,
    decreases n,
{
    if n > 0 {
        lemma_no_more_than(names, before, after, (n - 1) as nat);
    }
}

/// The geometry that is remembered: the measured one of a window that is neither
/// maximised nor full-screen, and nothing where it could not be measured. A window
/// that covers the screen before its geometry was ever known has size zero.
pub proof fn law_remembered_geometry<N>(
    saved: Option<WindowState<N>>,
    w: WindowState<N>,
    maximized: bool,
    zero: N,
)
    ensures
        remembered(saved, false, false, Some(w), zero) == Some(
            WindowState { x: w.x, y: w.y, width: w.width, height: w.height, maximized: false },
        ),
        remembered(saved, false, false, None, zero) is None,
        remembered(None, maximized, true, Some(w), zero) == Some(
            WindowState { x: 0, y: 0, width: zero, height: zero, maximized },
        ),
        placement(Some(w), true) == (Placement::Restore { maximize: w.maximized }),
        placement(Some(w), false) == Placement::OffScreen,
{
}

/// The root is the first of the six directories from the executable up that holds
/// data or sources; the executable's own where none does.
pub proof fn law_root_is_the_first(levels: Seq<crate::settings::Level>, root: int, other: int)
    requires
        is_first_root(levels, root),
        0 <= other < levels.len(),
        other < 6,
        levels[other].has_data || levels[other].has_sources,
    ensures
        0 <= root <= other,
        levels[root].has_data || levels[root].has_sources,
{
    if root > other {
        assert(crate::settings::is_root(levels[other]));
    }
    assert(crate::settings::is_root(levels[other]));
}

/// An output directory counts as named unless it is white space alone.
pub proof fn law_blank_output_is_none<N>(cfg: ConfigView<N>)
    ensures
        names_output(cfg) <==> trimmed(cfg.output_dir).len() > 0,
{
}

/// When monitoring may start, and the first reason against it.
pub proof fn law_when_monitoring_starts<N>(
    running: bool,
    cfg: ConfigView<N>,
    output_is_dir: bool,
    found: bool,
)
    ensures
        ({
            let why = refused(running, cfg, output_is_dir, found);
            let named = cfg.download_dir.len() > 0 && cfg.output_dir.len() > 0;
            &&& why is None <==> !running && named && output_is_dir && found
            &&& why == Some(Refusal::AlreadyRunning) <==> running
            &&& why == Some(Refusal::NoDirectories) <==> !running && !named
            &&& why == Some(Refusal::NoOutput { dir: cfg.output_dir }) <==> !running && named
                && !output_is_dir
            &&& why == Some(Refusal::NoDownloads { dir: cfg.download_dir }) <==> !running && named
                && output_is_dir && !found
        }),
{
}

/// Monitoring is active exactly while there is a session whose flag is down.
pub proof fn law_active_sessions<F>(monitor: Monitor<F>)
    ensures
        active(monitor, false) <==> monitor.session is Some,
        !active(monitor, true),
{
}

/// A notification about a session comes exactly where the session has them on, and
/// names its event and its directory.
pub proof fn law_session_notifications<F>(toast: Option<Toast>, event: Seq<char>, session: Session<F>)
    requires
        session_toast(toast, event, session),
    ensures
        toast is Some <==> session.notify,
        toast matches Some(t) ==> t.event@ == event && t.sound == session.sound && (
        session.watch_dir@.len() > 0 ==> string_view(t.detail) == Some(session.watch_dir@)) && (
        session.watch_dir@.len() == 0 ==> t.detail is None),
{
}

/// The download folder: the configured one where it has that name and exists, or
/// else the one in it where that exists.
pub proof fn law_download_folder(
    configured: Seq<char>,
    name: Seq<char>,
    is_dir: bool,
    nested: bool,
    sep: char,
)
    ensures
        ({
            let own = download_folder(configured, Some(name), is_dir, nested, sep);
            let inside = path_in(configured, "VipSongsDownload"@, sep);
            &&& same_ignoring_case(name, "VipSongsDownload"@) && is_dir ==> own == Some(configured)
            &&& !same_ignoring_case(name, "VipSongsDownload"@) && nested ==> own == Some(inside)
            &&& !is_dir && nested ==> own == Some(inside)
            &&& !nested && !is_dir ==> own is None
            &&& !nested && !same_ignoring_case(name, "VipSongsDownload"@) ==> own is None
            &&& download_folder(configured, None, is_dir, true, sep) == Some(inside)
            &&& download_folder(configured, None, is_dir, false, sep) is None
        }),
{
}

/// The optional steps are listed where they are switched on, in their order.
pub proof fn law_features_are_listed<N>(cfg: ConfigView<N>)
    ensures
        ({
            let (a, b, c) = (cfg.minimal_metadata, cfg.embed_lrc, cfg.shred_mode);
            let (x, y, z) = ("极简模式"@, "写入 LRC 歌词文件"@, "删除原始文件"@);
            features(cfg) == match (a, b, c) {
                (true, true, true) => seq![x, y, z],
                (true, true, false) => seq![x, y],
                (true, false, true) => seq![x, z],
                (true, false, false) => seq![x],
                (false, true, true) => seq![y, z],
                (false, true, false) => seq![y],
                (false, false, true) => seq![z],
                (false, false, false) => Seq::<Seq<char>>::empty(),
            }
        }),
{
    let (a, b, c) = (cfg.minimal_metadata, cfg.embed_lrc, cfg.shred_mode);
    let (x, y, z) = ("极简模式"@, "写入 LRC 歌词文件"@, "删除原始文件"@);
    let list = features(cfg);
    if a && b && c {
        assert(list =~= seq![x, y, z]);
    } else if a && b {
        assert(list =~= seq![x, y]);
    } else if a && c {
        assert(list =~= seq![x, z]);
    } else if a {
        assert(list =~= seq![x]);
    } else if b && c {
        assert(list =~= seq![y, z]);
    } else if b {
        assert(list =~= seq![y]);
    } else if c {
        assert(list =~= seq![z]);
    } else {
        assert(list =~= Seq::<Seq<char>>::empty());
    }
}

/// The steps of a job: decryption and cover always, and then lyrics, trimming and
/// deletion as far as they were asked for. After each step comes the next of them.
pub proof fn law_steps_of_a_job(event: Event, options: Options)
    ensures
        ({
            let l = options.embed_lrc;
            let t = options.minimal_metadata;
            let s = options.shred_mode;
            let tail = if s {
                Step::Shred
            } else {
                Step::Done
            };
            following(event, options) == match event {
                Event::Decrypted(Ok(_)) => Step::Cover,
                Event::Decrypted(Err(_)) => Step::Failed,
                Event::Cover(_) => if l {
                    Step::Lyrics
                } else if t {
                    Step::Trim
                } else {
                    tail
                },
                Event::Lyrics(_) => if t {
                    Step::Trim
                } else {
                    tail
                },
                Event::Trimmed(_) => tail,
                Event::Deleted { .. } => Step::Done,
            }
        }),
        options.embed_lrc && options.minimal_metadata && options.shred_mode ==> rest_of(
            Step::Decrypt,
            options,
        ) == seq![Step::Decrypt, Step::Cover, Step::Lyrics, Step::Trim, Step::Shred],
        !options.embed_lrc && !options.minimal_metadata && !options.shred_mode ==> rest_of(
            Step::Decrypt,
            options,
        ) == seq![Step::Decrypt, Step::Cover],
{
    reveal_with_fuel(rest_of, 7);
    let all = rest_of(Step::Decrypt, options);
    if options.embed_lrc && options.minimal_metadata && options.shred_mode {
        assert(all =~= seq![Step::Decrypt, Step::Cover, Step::Lyrics, Step::Trim, Step::Shred]);
    }
    if !options.embed_lrc && !options.minimal_metadata && !options.shred_mode {
        assert(all =~= seq![Step::Decrypt, Step::Cover]);
    }
}

/// What a job writes to the log: errors exactly for what failed, and the sizes and
/// names of what was written.
pub proof fn law_job_messages(filename: Seq<char>, output: String, n: usize, ncm: bool, lrc: bool)
    ensures
        entry_of(Event::Decrypted(Ok(output)), filename) matches Some(e) && e.level == Level::Info
            && e.message == "解密完成: "@ + filename + " → "@ + output@,
        entry_of(Event::Cover(Embedding::Written(n)), filename) matches Some(e) && e.level
            == Level::Info && e.message == "写入封面: "@ + decimal(n as nat) + " 字节"@,
        entry_of(Event::Lyrics(Embedding::Written(n)), filename) matches Some(e) && e.level
            == Level::Info && e.message == "写入歌词: "@ + decimal(n as nat) + " 字节"@,
        entry_of(Event::Cover(Embedding::Failed), filename) matches Some(e) && e.level
            == Level::Error,
        entry_of(Event::Lyrics(Embedding::Failed), filename) matches Some(e) && e.level
            == Level::Error,
        entry_of(Event::Cover(Embedding::Missing), filename) matches Some(e) && e.level
            == Level::Info,
        entry_of(Event::Lyrics(Embedding::Missing), filename) matches Some(e) && e.level
            == Level::Info,
        entry_of(Event::Trimmed(ncm), filename) matches Some(e) && (e.level == Level::Info <==> ncm),
        entry_of(Event::Deleted { ncm, lrc }, filename) matches Some(e) && (e.level == Level::Info
            <==> ncm),
{
}

/// While a job runs its progress rises from step to step.
pub proof fn law_step_progress_rises(step: Step, event: Event, options: Options)
    requires
        answers(step, event),
    ensures
        match (status_of(step), status_of(following(event, options))) {
            (Some((_, before)), Some((_, after))) => before < after,
            _ => true,
        },
        status_of(step) matches Some((_, pct)) ==> 90 < pct < 100,
{
}

/// A file is queued exactly where it is a file with the right extension. Files are
/// picked one by one, so their order stays.
pub proof fn law_files_are_picked(a: Seq<Dropped>, b: Seq<Dropped>, one: Dropped)
    ensures
        queued_paths(a + b) == queued_paths(a) + queued_paths(b),
        queued_paths(seq![one]) == match one.extension {
            Some(ext) => if one.is_file && same_ignoring_case(ext@, "ncm"@) {
                seq![one.path@]
            } else {
                Seq::<Seq<char>>::empty()
            },
            None => Seq::<Seq<char>>::empty(),
        },
        is_ncm_ending(None) == false,
    decreases b.len(),
{
    let none = Seq::<Seq<char>>::empty();
    assert(seq![one].drop_last() =~= Seq::<Dropped>::empty());
    assert(queued_paths(Seq::<Dropped>::empty()) == none);
    assert(none.push(one.path@) =~= seq![one.path@]);
    if b.len() == 0 {
        assert(a + b =~= a);
        assert(queued_paths(a) + queued_paths(b) =~= queued_paths(a));
    } else {
        assert((a + b).drop_last() =~= a + b.drop_last());
        law_files_are_picked(a, b.drop_last(), one);
        assert(queued_paths(a + b) =~= queued_paths(a) + queued_paths(b));
    }
}

/// The lifetime total grows by one with each file that was decoded, and with no
/// other. It stays at its largest value.
pub proof fn law_total_counts_successes(n: u64)
    ensures
        n < 18446744073709551615 ==> next_total(true, Some(n)) == Some((n + 1) as u64),
        n == 18446744073709551615 ==> next_total(true, Some(n)) == Some(n),
        next_total(false, Some(n)) is None,
        next_total(true, None) is None,
{
}

/// What is said at the end of a job: that it is complete, or the error, with the
/// counters as they are then.
pub proof fn law_end_of_a_job(
    output: String,
    e: String,
    filename: Seq<char>,
    queue: QueueView,
    total: u64,
)
    requires
        queue.waiting.len() <= usize::MAX,
        0 <= queue.processed <= usize::MAX,
    ensures
        ({
            let good = end_report(Ok(output), filename, queue, Some(total));
            let bad = end_report(Err(e), filename, queue, None);
            &&& good.state == QueueState::Completed && bad.state == QueueState::Failed
            &&& good.progress == 100 && bad.progress == 0
            &&& good.file == filename && bad.file == filename
            &&& good.queued == queue.waiting.len() && bad.queued == queue.waiting.len()
            &&& good.processed == queue.processed && bad.processed == queue.processed
            &&& good.total == Some(total) && bad.total == Some(0u64)
            &&& bad.status == "失败: "@ + e@
        }),
        end_entry(Ok(output), filename) is None,
        end_entry(Err(e), filename) matches Some(entry) && entry.level == Level::Error
            && entry.message == "处理失败 "@ + filename + ": "@ + e@,
        ({
            let r = skip_report(filename, queue);
            &&& r.state == QueueState::Failed && r.progress == 0 && r.file == filename
            &&& r.queued == queue.waiting.len() && r.processed == queue.processed
            &&& r.total is None
        }),
        skip_entry(filename, output@).level == Level::Error,
        skip_entry(filename, output@).message == "输出目录不存在，跳过 "@ + filename + ": "@
            + output@,
{
}

/// The notification at the end of a job comes exactly where they are on, and names
/// the output, or the input where the job failed.
pub proof fn law_end_notifications(
    toast: Option<Toast>,
    result: Result<String, String>,
    filename: Seq<char>,
    notify: bool,
    sound: bool,
)
    requires
        end_toast(toast, result, filename, notify, sound),
        filename.len() > 0,
        result matches Ok(output) ==> output@.len() > 0,
    ensures
        toast is Some <==> notify,
        toast matches Some(t) ==> t.sound == sound && string_view(t.detail) == match result {
            Ok(output) => Some(output@),
            Err(_) => Some(filename),
        },
{
}

/// A line of the log holds time, level and the whole message.
pub proof fn law_log_lines(clock: Seq<char>, level: Seq<char>, message: Seq<char>)
    ensures
        log_line(clock, level, message) == seq!['['] + clock + seq![']', ' ', '['] + level + seq![
            ']',
            ' ',
        ] + message,
{
    reveal_strlit("[");
    reveal_strlit("] [");
    reveal_strlit("] ");
    assert("["@ =~= seq!['[']);
    assert("] ["@ =~= seq![']', ' ', '[']);
    assert("] "@ =~= seq![']', ' ']);
}

/// The line about a start names both directories.
pub proof fn law_start_line(watch_dir: Seq<char>, output: Seq<char>)
    ensures
        started_text(watch_dir, output) == "监控已启动 | 监控目录: "@ + watch_dir
            + " | 输出目录: "@ + output,
{
}

/// A file of the data directory is found exactly where it exists.
pub proof fn law_data_files(dir: Seq<char>, name: Seq<char>, sep: char)
    ensures
        found_file(Some(dir), name, true, sep) == Some(path_in(dir, name, sep)),
        found_file(Some(dir), name, false, sep) is None,
        found_file(None, name, true, sep) is None,
{
}

/// The text around the icon does not depend on the icon, which stands in it twice.
pub proof fn law_registration_holds_the_icon(icon: Seq<char>)
    ensures
        registration(icon) == registration_front() + icon
            + "') { Set-ItemProperty -Path $id -Name 'IconUri' -Value '"@ + icon
            + registration_back(),
{
    assert(registration(icon) =~= registration_front() + icon
        + "') { Set-ItemProperty -Path $id -Name 'IconUri' -Value '"@ + icon + registration_back());
}

/// What stands before the icon.
pub open spec fn registration_front() -> Seq<char> {
    "$ErrorActionPreference='SilentlyContinue'\n$id = 'HKCU:\\Software\\Classes\\AppUserModelId\\"@
        + "NADT"@
        + "'\nNew-Item -Path $id -Force | Out-Null\nSet-ItemProperty -Path $id -Name 'DisplayName' -Value '"@
        + "NADT"@ + "'\nif ('"@
}

/// What stands behind the icon.
pub open spec fn registration_back() -> Seq<char> {
    "' }\n$ns = 'HKCU:\\SOFTWARE\\Microsoft\\Windows\\CurrentVersion\\Notifications\\Settings\\"@
        + "NADT"@
        + "'\nNew-Item -Path $ns -Force | Out-Null\nSet-ItemProperty -Path $ns -Name 'Enabled' -Value 1 -Type DWord\n"@
}

/// The keys that a clean-up removed are the lines that it printed, trimmed, without
/// empty ones. It failed where the script did, or where there are none.
pub proof fn law_removed_keys(a: Seq<Seq<char>>, b: Seq<Seq<char>>, line: Seq<char>, printed: Seq<char>)
    ensures
        removed_keys(a + b) == removed_keys(a) + removed_keys(b),
        removed_keys(seq![line]) == if trimmed(line).len() > 0 {
            seq![trimmed(line)]
        } else {
            Seq::<Seq<char>>::empty()
        },
        cleaned(false, printed).1 is Some,
        cleaned(true, printed).1 is None <==> removed_keys(lines(printed)).len() > 0,
        cleaned(true, printed).1 is None ==> cleaned(true, printed).0.len() == removed_keys(
            lines(printed),
        ).len() + 1 && forall|i: int|
            0 <= i < removed_keys(lines(printed)).len() ==> (#[trigger] cleaned(true, printed).0[i]).message
                == "已删除 "@ + removed_keys(lines(printed))[i],
    decreases b.len(),
{
    let none = Seq::<Seq<char>>::empty();
    assert(seq![line].drop_last() =~= none);
    assert(removed_keys(none) == none);
    assert(none.push(trimmed(line)) =~= seq![trimmed(line)]);
    if b.len() == 0 {
        assert(a + b =~= a);
        assert(removed_keys(a) + removed_keys(b) =~= removed_keys(a));
    } else {
        assert((a + b).drop_last() =~= a + b.drop_last());
        law_removed_keys(a, b.drop_last(), line, printed);
        assert(removed_keys(a + b) =~= removed_keys(a) + removed_keys(b));
    }
}

/// Only the four entries of the menu do something.
pub proof fn law_menu_entries(id: Seq<char>)
    ensures
        action_of(id) == MenuAction::Quit <==> id == "quit"@,
        action_of(id) == MenuAction::Download <==> id == "download"@,
        action_of(id) == MenuAction::Output <==> id == "output"@,
        action_of(id) == MenuAction::Open <==> id == "open"@,
{
    reveal_strlit("quit");
    reveal_strlit("download");
    reveal_strlit("output");
    reveal_strlit("open");
    assert("quit"@[0] != "open"@[0]);
    assert("quit"@.len() == 4 && "open"@.len() == 4 && "output"@.len() == 6 && "download"@.len() == 8);
}

/// All changes are told in one line, and so are all optional steps. Where there are
/// none, the first line says so and the second is left out.
pub proof fn law_lists_are_told<N>(list: Seq<Seq<char>>, cfg: ConfigView<N>)
    ensures
        list.len() > 0 ==> change_text(list) == "配置变更: "@ + joined(list, seq![',', ' ']),
        change_text(Seq::empty()) == "配置保存（无变化）"@,
        features(cfg).len() > 0 ==> features_text(cfg) == Some(
            "输出设置: "@ + joined(features(cfg), seq!['、']),
        ),
        features(cfg).len() == 0 ==> features_text(cfg) is None,
{
    reveal_strlit(", ");
    reveal_strlit("、");
    assert(", "@ =~= seq![',', ' ']);
    assert("、"@ =~= seq!['、']);
}

} // verus!

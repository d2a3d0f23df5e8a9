use nadt::desktop_notify::{icon_path, logo_path, register_app_id, send_notification, toast_icon, APP_ID};
use nadt::file_watcher::{is_ncm, Look, Next, Seen, StableWait};
use nadt::logger::{history, init, log_path, path, write_at, InitError, Logger};
use nadt::monitor::{
    is_monitoring, nested_download_dir, resolve_download_dir_inner, start_failed, start_monitor,
    stop_monitor, stop_monitor_inner, Monitor, Session, StartError, Started,
};
use nadt::queue::Queue;
use nadt::settings::{
    accept, change_message, config_path, data_dir, default_output_dir, load, off_screen_message,
    place_window, resolve_root, save_config, save_window_state, wants_output_dir, Config, Level, Placement,
    WindowState,
};
use nadt::shell::{
    cleanup_script, clear_notification_registry, downloads_to_open, flash_step, menu_action,
    silent_start_message, startup_message, tray_tooltip, MenuAction, QuitStep, QuitWait, TrayIcon,
};

fn config() -> Config<f64> {
    Config::with_output_dir("out".to_string())
}

fn window(x: i32, maximized: bool) -> WindowState<f64> {
    WindowState { x, y: 2, width: 420.0, height: 700.0, maximized }
}

#[test]
fn paths_are_joined() {
    let windows = |dir: &str| data_dir(dir, '\\');
    assert_eq!(windows(r"C:\x"), r"C:\x\data");
    assert_eq!(windows(r"C:\"), r"C:\data");
    assert_eq!(windows(r"C:/x/"), r"C:/x/data");
    assert_eq!(windows(r"c:"), r"c:data");
    assert_eq!(windows(r"\\server\share"), r"\\server\share\data");
    assert_eq!(data_dir("", '/'), "data");
    assert_eq!(data_dir("c:", '/'), "c:/data");
    assert_eq!(data_dir("/a\\", '/'), "/a\\/data");
    assert_eq!(config_path(&data_dir("/r", '/'), '/'), "/r/data/settings.json");
    assert_eq!(log_path("/r/data", '/'), "/r/data/nadt.log");
    assert_eq!(default_output_dir(Some("/home/u"), '/'), "/home/u/Downloads/NADT Export");
    assert_eq!(default_output_dir(None, '/'), "./Downloads/NADT Export");
}

#[test]
fn verbatim_paths_are_rewritten() {
    let windows = |dir: &str| data_dir(dir, '\\');
    assert_eq!(windows(r"\\?\C:\a/"), r"\\?\C:\a/\data");
    assert_eq!(windows(r"\\?\C:\a\\b\"), r"\\?\C:\a\b\data");
    assert_eq!(windows(r"\\?\C:"), r"\\?\C:\data");
    assert_eq!(windows(r"\\?\C:\"), r"\\?\C:\data");
    assert_eq!(windows(r"\\?\C:/a"), r"\\?\C:\a\data");
    assert_eq!(windows(r"\\?\UNC\server\share\\x"), r"\\?\UNC\server\share\x\data");
    assert_eq!(windows(r"\\?\UNC\server"), r"\\?\UNC\server\data");
    assert_eq!(windows(r"\\?\Volume{1}\\a\.\b"), r"\\?\Volume{1}\a\.\b\data");
    assert_eq!(windows(r"\\?\C:x\\y"), r"\\?\C:x\y\data");
    assert_eq!(data_dir(r"\\?\C:\a\\", '/'), r"\\?\C:\a\\/data");
    assert_eq!(
        resolve_download_dir_inner(r"\\?\C:\\m", Some("m"), true, true, '\\').as_deref(),
        Some(r"\\?\C:\m\VipSongsDownload")
    );
}

#[test]
fn the_root_is_the_first_that_is_recognised() {
    let none = Level { has_data: false, has_sources: false };
    let data = Level { has_data: true, has_sources: false };
    let sources = Level { has_data: false, has_sources: true };
    assert_eq!(resolve_root(&[data, data]), 0);
    assert_eq!(resolve_root(&[none, none, none, sources, data]), 3);
    assert_eq!(resolve_root(&[none, none, data, sources]), 2);
    assert_eq!(resolve_root(&[none, none]), 0);
    assert_eq!(resolve_root(&[none, none, none, none, none, none, data]), 0);
    assert_eq!(resolve_root(&[none, none, none, none, none, data]), 5);
    assert_eq!(resolve_root(&[]), 0);
}

#[test]
fn settings_are_loaded_or_made() {
    let l = load::<f64>(true, None, "out".to_string());
    assert!(l.save && l.create_output);
    assert_eq!((l.config.theme.as_str(), l.config.output_dir.as_str()), ("system", "out"));
    assert!(l.config.first_run && l.config.enable_notification && l.config.window.is_none());
    let mut cfg = config();
    cfg.output_dir = " \t".to_string();
    cfg.theme = "dark".to_string();
    let l = load(true, Some(cfg.clone()), "out".to_string());
    assert!(!l.save && !l.create_output);
    assert_eq!(l.config.theme, "dark");
    assert!(!wants_output_dir(&cfg));
    let l = load(false, Some(cfg), "out".to_string());
    assert!(!l.save && !l.create_output);
    assert_eq!(l.config.theme, "system");
}

#[test]
fn saving_keeps_counter_and_window() {
    let mut current = config();
    current.total_processed = 7;
    current.window = Some(window(1, false));
    let mut submitted = config();
    submitted.theme = "dark".to_string();
    let saved = accept(&current, submitted);
    assert_eq!(saved.total_processed, 7);
    assert_eq!(saved.window.unwrap().x, 1);
    assert_eq!(saved.theme, "dark");
    let (saved, message) = save_config(&current, saved);
    assert_eq!((saved.total_processed, message.as_str()), (7, "配置变更: theme: system → dark"));
}

#[test]
fn changes_are_listed_in_order() {
    let old = config();
    let mut new = config();
    assert_eq!(change_message(&old, &new), "配置保存（无变化）");
    new.first_run = false;
    new.total_processed = 3;
    assert_eq!(change_message(&old, &new), "配置保存（无变化）");
    new.silent_start = true;
    new.download_dir = "d".to_string();
    new.enable_sound = false;
    assert_eq!(
        change_message(&old, &new),
        "配置变更: download_dir:  → d, enable_sound: true → false, silent_start: false → true"
    );
}

#[test]
fn the_window_remembers_its_own_size() {
    let w = save_window_state(Some(window(5, false)), true, false, Some(window(9, true)), 0.0).unwrap();
    assert_eq!((w.x, w.width, w.maximized), (5, 420.0, true));
    let w = save_window_state(Some(window(5, true)), false, true, None, 0.0).unwrap();
    assert_eq!((w.x, w.maximized), (5, false));
    let w = save_window_state(None, true, false, None, 0.0).unwrap();
    assert_eq!((w.x, w.y, w.width, w.maximized), (0, 0, 0.0, true));
    let w = save_window_state(Some(window(5, true)), false, false, Some(window(9, true)), 0.0).unwrap();
    assert_eq!((w.x, w.maximized), (9, false));
    assert!(save_window_state(Some(window(5, true)), false, false, None, 0.0).is_none());
}

#[test]
fn the_window_opens_where_it_can_be_seen() {
    assert_eq!(place_window(&Some(window(1, true)), true), Placement::Restore { maximize: true });
    assert_eq!(place_window(&Some(window(1, true)), false), Placement::OffScreen);
    assert_eq!(place_window::<f64>(&None, true), Placement::FirstRun);
    assert_eq!(
        off_screen_message(-5, 70),
        "窗口位置 (-5, 70) 不在任何显示器内，改为居中显示"
    );
}

#[test]
fn the_log_keeps_the_last_lines() {
    let mut log = Logger::new();
    assert_eq!(write_at(&mut log, "01:02:03", "INFO", "early"), "[01:02:03] [INFO] early");
    assert_eq!(history(&log), ["[01:02:03] [INFO] early"]);
    assert!(path(&log).is_none());
    assert!(init(&mut log, Ok("/r/nadt.log".to_string())).is_ok());
    assert_eq!(path(&log).as_deref(), Some("/r/nadt.log"));
    assert!(history(&log).is_empty());
    for i in 0..203 {
        write_at(&mut log, "01:02:03", "INFO", &format!("{i}"));
    }
    let lines = history(&log);
    assert_eq!(lines.len(), 200);
    assert_eq!(lines[0], "[01:02:03] [INFO] 3");
    assert_eq!(lines[199], "[01:02:03] [INFO] 202");
    let line = nadt::logger::write(&mut log, "ERROR", "now");
    let bytes = line.as_bytes();
    assert!(line.starts_with('[') && line.ends_with("] [ERROR] now"));
    assert_eq!((bytes[3], bytes[6], bytes.len()), (b':', b':', 22));
    assert!([1, 2, 4, 5, 7, 8].iter().all(|i| bytes[*i].is_ascii_digit()));
    assert_eq!(history(&log)[199], line);
}

#[test]
fn the_log_says_why_it_cannot_start() {
    let mut log = Logger::new();
    let e = InitError::NoDataDir { error: "e".to_string() };
    assert_eq!(init(&mut log, Err(e)), Err("无法定位数据目录: e".to_string()));
    let e = InitError::NoDirectory { dir: "d".to_string(), error: "e".to_string() };
    assert_eq!(init(&mut log, Err(e)), Err("无法创建数据目录 d: e".to_string()));
    let e = InitError::NoFile { path: "p".to_string(), error: "e".to_string() };
    assert_eq!(init(&mut log, Err(e)), Err("无法写入日志文件 p: e".to_string()));
    assert!(path(&log).is_none());
    let line = nadt::logger::write(&mut log, "INFO", "x");
    assert!(line.ends_with("[INFO] x"));
    assert_eq!(history(&log), [line]);
}

#[test]
fn notifications_have_a_source_and_an_icon() {
    assert_eq!(logo_path(Some("/d"), true, '/').as_deref(), Some("/d/NADT.png"));
    assert_eq!(logo_path(Some("/d"), false, '/'), None);
    assert_eq!(logo_path(None, true, '/'), None);
    assert_eq!(icon_path(Some("/d"), true, '/').as_deref(), Some("/d/NADT.ico"));
    assert_eq!(icon_path(Some("/d"), false, '/'), None);
    let (l, i) = (Some("l".to_string()), Some("i".to_string()));
    assert_eq!(toast_icon(l.clone(), i.clone()), l);
    assert_eq!(toast_icon(None, i.clone()), i);
    let script = register_app_id(Some("C:\\d\\NADT.png".to_string()));
    let icon = "C:\\d\\NADT.png";
    let want = format!(
        r#"$ErrorActionPreference='SilentlyContinue'
$id = 'HKCU:\Software\Classes\AppUserModelId\{APP_ID}'
New-Item -Path $id -Force | Out-Null
Set-ItemProperty -Path $id -Name 'DisplayName' -Value '{APP_ID}'
if ('{icon}') {{ Set-ItemProperty -Path $id -Name 'IconUri' -Value '{icon}' }}
$ns = 'HKCU:\SOFTWARE\Microsoft\Windows\CurrentVersion\Notifications\Settings\{APP_ID}'
New-Item -Path $ns -Force | Out-Null
Set-ItemProperty -Path $ns -Name 'Enabled' -Value 1 -Type DWord
"#
    );
    assert_eq!(script, want);
    assert!(register_app_id(None).contains("if ('') {"));
    let t = send_notification("event", "", true);
    assert_eq!((t.app_id.as_str(), t.event.as_str(), t.detail, t.sound), ("NADT", "event", None, true));
    let t = send_notification("event", "detail", false);
    assert_eq!((t.detail.as_deref(), t.sound), (Some("detail"), false));
}

#[test]
fn a_download_is_taken_up_once() {
    assert!(is_ncm(Some("NCM")) && is_ncm(Some("ncm")));
    assert!(!is_ncm(Some("mp3")) && !is_ncm(None));
    let mut seen = Seen::new();
    assert!(!seen.is_new_download(Some("lrc"), "C:\\A.ncm"));
    assert!(seen.is_new_download(Some("ncm"), "C:\\ÄB.ncm"));
    assert!(!seen.is_new_download(Some("NCM"), "c:\\äb.NCM"));
    assert!(seen.is_new_download(Some("ncm"), "C:\\other.ncm"));
    assert!(!seen.note("c:\\other.ncm".to_string()));
}

#[test]
fn a_file_is_taken_when_it_stopped_growing() {
    let look = |n: u64| Look { stopped: false, len: Some(n) };
    let mut w = StableWait::new();
    assert_eq!(w.look(look(0)), Next::Sleep);
    assert_eq!(w.look(look(0)), Next::Sleep);
    assert_eq!(w.look(look(5)), Next::Sleep);
    assert_eq!(w.look(look(9)), Next::Sleep);
    assert_eq!(w.look(look(9)), Next::TryOpen);
    assert_eq!(w.opened(false), Next::Sleep);
    assert_eq!(w.left, 19);
    assert_eq!(w.look(look(9)), Next::TryOpen);
    assert_eq!(w.opened(true), Next::Accept);
    assert_eq!(w.look(Look { stopped: true, len: Some(9) }), Next::Refuse);
    assert_eq!(w.look(Look { stopped: false, len: None }), Next::Refuse);
}

#[test]
fn a_growing_file_is_waited_for() {
    let look = |n: u64| Look { stopped: false, len: Some(n) };
    let mut w = StableWait::new();
    for i in 1..=100 {
        assert_eq!(w.look(look(i)), Next::Sleep);
    }
    assert_eq!(w.look(look(100)), Next::TryOpen);
    assert_eq!(w.opened(true), Next::Accept);
}

#[test]
fn a_file_that_cannot_be_taken_is_given_up() {
    let look = |n: u64| Look { stopped: false, len: Some(n) };
    let mut w = StableWait::new();
    for _ in 0..20 {
        assert_eq!(w.look(look(0)), Next::Sleep);
    }
    assert_eq!(w.look(look(0)), Next::Refuse);
    let mut w = StableWait::new();
    assert_eq!(w.look(look(7)), Next::Sleep);
    for _ in 0..20 {
        assert_eq!(w.look(look(7)), Next::TryOpen);
        assert_eq!(w.opened(false), Next::Sleep);
    }
    assert_eq!(w.look(look(7)), Next::TryOpen);
    assert_eq!(w.opened(false), Next::Refuse);
}

#[test]
fn the_download_folder_is_found() {
    let inner = "/m/vipsongsdownload";
    assert_eq!(
        resolve_download_dir_inner(inner, Some("vipsongsdownload"), true, true, '/').as_deref(),
        Some(inner)
    );
    assert_eq!(
        resolve_download_dir_inner("/m", Some("m"), true, true, '/').as_deref(),
        Some("/m/VipSongsDownload")
    );
    assert_eq!(resolve_download_dir_inner("/m", Some("m"), true, false, '/'), None);
    assert_eq!(resolve_download_dir_inner(inner, Some("VipSongsDownload"), false, false, '/'), None);
    assert_eq!(resolve_download_dir_inner("", None, false, false, '/'), None);
    assert_eq!(nested_download_dir("", '/'), "VipSongsDownload");
    let found = resolve_download_dir_inner("/m", Some("m"), true, true, '/').unwrap();
    assert_eq!(
        resolve_download_dir_inner(&found, Some("VipSongsDownload"), true, true, '/'),
        Some(found)
    );
}

#[test]
fn monitoring_starts_only_when_it_can() {
    let mut cfg = config();
    let dir = Some("w".to_string());
    let message = |r: Result<Started, StartError>| match r {
        Ok(s) => s.watch_dir,
        Err(e) => e.log_message(),
    };
    let mut idle = Monitor::<u8>::new();
    let mut busy = Monitor { session: Some(Session::new(1u8, "old".to_string(), &cfg)) };
    assert!(is_monitoring(&busy, false) && !is_monitoring(&busy, true));
    assert!(!is_monitoring(&idle, false) && !is_monitoring(&idle, true));
    assert_eq!(
        message(start_monitor(&mut busy, false, &cfg, true, dir.clone(), 2)),
        "启动监控失败: 监控已经在运行"
    );
    assert_eq!(busy.session.as_ref().unwrap().stop, 1);
    assert_eq!(
        message(start_monitor(&mut idle, false, &cfg, true, dir.clone(), 2)),
        "启动监控失败: 下载目录和输出目录不能为空"
    );
    cfg.download_dir = "d".to_string();
    assert_eq!(
        message(start_monitor(&mut busy, true, &cfg, false, dir.clone(), 2)),
        "启动监控失败: 输出目录不存在: out"
    );
    assert_eq!(
        message(start_monitor(&mut idle, false, &cfg, true, None, 2)),
        "启动监控失败: 下载目录不存在或其中没有 VipSongsDownload 文件夹: d"
    );
    assert!(idle.session.is_none());
    assert_eq!(message(start_monitor(&mut idle, false, &cfg, true, dir, 2)), "w");
    assert!(is_monitoring(&idle, false));
}

#[test]
fn a_start_that_fails_leaves_nothing_behind() {
    let mut m = Monitor { session: Some(Session::new(7u8, "w".to_string(), &config())) };
    assert_eq!(start_failed(&mut m), Some(7));
    assert!(m.session.is_none() && !is_monitoring(&m, false));
    assert_eq!(start_failed(&mut m), None);
}

#[test]
fn a_session_speaks_of_its_own_directory() {
    let mut cfg = config();
    cfg.download_dir = "d".to_string();
    let mut m = Monitor::new();
    let mut q = Queue::new();
    let s = start_monitor(&mut m, false, &cfg, true, Some("w".to_string()), 3u8).ok().unwrap();
    let t = s.toast.unwrap();
    assert_eq!((t.event.as_str(), t.detail.as_deref(), t.sound), ("监控已启动", Some("w"), true));
    assert_eq!(s.log, "监控已启动 | 监控目录: w | 输出目录: out");
    assert_eq!(s.features, None);
    let stopped = stop_monitor(&mut m, &mut q);
    let t = stopped.toast.unwrap();
    assert_eq!((t.event.as_str(), t.detail.as_deref(), t.sound), ("监控已停止", Some("w"), true));
    assert_eq!(stopped.stop, Some(3));
    assert_eq!(
        stopped.log,
        Some("监控已停止 (当前正在处理的文件会继续完成，等待中的队列已丢弃)")
    );
    cfg.enable_notification = false;
    cfg.minimal_metadata = true;
    cfg.shred_mode = true;
    let s = start_monitor(&mut m, false, &cfg, true, Some("w".to_string()), 4u8).ok().unwrap();
    let session = m.session.as_ref().unwrap();
    assert!(!session.sound && !session.notify && s.toast.is_none());
    assert_eq!(s.features.unwrap(), "输出设置: 极简模式、删除原始文件");
    assert!(stop_monitor(&mut m, &mut q).toast.is_none());
    m.session = Some(Session::new(1u8, String::new(), &config()));
    assert_eq!(stop_monitor(&mut m, &mut q).toast.unwrap().detail, None);
}

#[test]
fn stopping_drops_the_files_that_wait() {
    let mut m = Monitor { session: Some(Session::new(7u8, "w".to_string(), &config())) };
    let mut q = Queue::new();
    for name in ["a", "b", "c"] {
        q.enter(name.to_string());
    }
    assert_eq!(q.leave().as_deref(), Some("a"));
    stop_monitor(&mut m, &mut q);
    assert!(m.session.is_none() && !is_monitoring(&m, false));
    assert_eq!((q.pending(), q.leave()), (0, None));
    assert_eq!(q.finish(true), 1);
    // Without a session nothing is dropped, but quitting always drops.
    q.enter("d".to_string());
    let idle = stop_monitor(&mut m, &mut q);
    assert!(idle.stop.is_none() && idle.log.is_none() && idle.toast.is_none());
    assert_eq!(q.pending(), 1);
    assert_eq!(stop_monitor_inner(&mut m, &mut q), None);
    assert_eq!((q.pending(), q.processed()), (0, 1));
    m.session = Some(Session::new(8u8, "w".to_string(), &config()));
    assert_eq!(stop_monitor_inner(&mut m, &mut q), Some(8));
    assert!(m.session.is_none());
}

#[test]
fn the_tray_flashes_while_there_is_work() {
    assert_eq!(flash_step(false, true, true, 0), (Some(TrayIcon::Dimmed), true));
    assert_eq!(flash_step(true, true, false, 2), (Some(TrayIcon::Normal), false));
    assert_eq!(flash_step(true, true, false, 0), (Some(TrayIcon::Normal), false));
    assert_eq!(flash_step(true, false, true, 1), (Some(TrayIcon::Normal), false));
    assert_eq!(flash_step(false, true, false, 0), (None, false));
    assert_eq!(tray_tooltip(12), "等待处理：12 个");
}

#[test]
fn the_menu_does_what_it_says() {
    assert_eq!(menu_action("open"), MenuAction::Open);
    assert_eq!(menu_action("download"), MenuAction::Download);
    assert_eq!(menu_action("output"), MenuAction::Output);
    assert_eq!(menu_action("quit"), MenuAction::Quit);
    assert_eq!(menu_action("Quit"), MenuAction::Nothing);
    assert_eq!(downloads_to_open(Some("r".to_string()), "c".to_string()).as_deref(), Some("r"));
    assert_eq!(downloads_to_open(None, "c".to_string()).as_deref(), Some("c"));
    assert_eq!(downloads_to_open(None, String::new()), None);
    assert_eq!(startup_message(Some("/d")), "NADT 启动 | 数据目录: /d");
    assert_eq!(startup_message(None), "NADT 启动 | 数据目录: 未知");
    assert_eq!(silent_start_message("e"), "静默启动: 自动启用监控失败: e");
}

#[test]
fn quitting_waits_for_the_worker() {
    let mut w = QuitWait::new();
    assert_eq!(w.look(false), QuitStep::Exit);
    for _ in 0..50 {
        assert_eq!(w.look(true), QuitStep::Sleep);
    }
    assert_eq!(w.look(true), QuitStep::TimedOut);
    assert_eq!(w.look(false), QuitStep::Exit);
}

#[test]
fn the_clean_up_reports_every_key() {
    let (log, r) = clear_notification_registry(true, b"  HKCU:\\a\\NADT \r\n\r\nHKCU:\\b\n");
    assert!(r.is_ok());
    let lines: Vec<&str> = log.iter().map(|e| e.message.as_str()).collect();
    assert_eq!(lines, ["已删除 HKCU:\\a\\NADT", "已删除 HKCU:\\b", "清理完成，共 2 项"]);
    assert!(log.iter().all(|e| e.level.name() == "INFO"));
    let (log, r) = clear_notification_registry(true, b" \r\n");
    assert_eq!((log.len(), r), (1, Err("没有找到需要清理的注册项")));
    assert_eq!(log[0].message, "没有找到需要清理的注册项");
    let (log, r) = clear_notification_registry(false, b"x");
    assert_eq!((log[0].message.as_str(), r), ("清理失败", Err("清理通知注册表失败")));
    assert_eq!(log[0].level.name(), "ERROR");
    let script = cleanup_script();
    assert!(script.contains(r"($p + '\' + $k.PSChildName)"));
    assert!(script.contains(r"'HKCU:\Software\Classes\AppUserModelId'"));
}

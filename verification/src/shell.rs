//! The shell around the queue: tray, menu, clean-up and quitting.

use vstd::prelude::*;
use crate::pipeline::{error, info, Entry, EntryView, Level};
use crate::text::{
    append_chars, append_str, chars_of, decimal, decode_lossy, lines, lossy_text, push_number,
    same_text, split_lines, string_of, trim, trimmed, char_views,
};

verus! {

/// The icon in the tray.
#[derive(Clone, Copy, Debug, PartialEq, Eq, Structural)]
pub enum TrayIcon {
    Normal,
    Dimmed,
}

/// What to do with the tray icon at a tick: the icon to set, if any, and whether
/// the dimmed icon is shown from then on. The icon flashes while there is work,
/// and goes back to normal where there is none.
pub fn flash_step(dimmed: bool, enabled: bool, busy: bool, waiting: usize) -> (next: (
    Option<TrayIcon>,
    bool,
))
    ensures
        next == if enabled && (busy || waiting > 0) {
            if dimmed {
                (Some(TrayIcon::Normal), false)
            } else {
                (Some(TrayIcon::Dimmed), true)
            }
        } else if dimmed {
            (Some(TrayIcon::Normal), false)
        } else {
            (None::<TrayIcon>, false)
        },
{
    if !enabled || !(busy || waiting > 0) {
        if dimmed {
            return (Some(TrayIcon::Normal), false);
        }
        return (None, false);
    }
    if dimmed {
        (Some(TrayIcon::Normal), false)
    } else {
        (Some(TrayIcon::Dimmed), true)
    }
}

/// The tooltip of the tray icon.
pub fn tray_tooltip(waiting: usize) -> (text: String)
    ensures
        text@ == "等待处理："@ + decimal(waiting as nat) + " 个"@,
{
    let mut m = chars_of("等待处理：");
    push_number(&mut m, waiting as u64);
    append_str(&mut m, " 个");
    string_of(&m)
}

/// What an entry of the tray menu does.
#[derive(Clone, Copy, Debug, PartialEq, Eq, Structural)]
pub enum MenuAction {
    Open,
    Download,
    Output,
    Quit,
    Nothing,
}

/// What the entry with an identifier does.
pub open spec fn action_of(id: Seq<char>) -> MenuAction {
    if id == "quit"@ {
        MenuAction::Quit
    } else if id == "download"@ {
        MenuAction::Download
    } else if id == "output"@ {
        MenuAction::Output
    } else if id == "open"@ {
        MenuAction::Open
    } else {
        MenuAction::Nothing
    }
}

/// What the entry of the tray menu with this identifier does.
pub fn menu_action(id: &str) -> (action: MenuAction)
    ensures
        action == action_of(id@),
{
    if same_text(id, "quit") {
        MenuAction::Quit
    } else if same_text(id, "download") {
        MenuAction::Download
    } else if same_text(id, "output") {
        MenuAction::Output
    } else if same_text(id, "open") {
        MenuAction::Open
    } else {
        MenuAction::Nothing
    }
}

/// The folder that the menu opens for the downloads: the one that holds them, or
/// else the configured one. `None` where that is empty.
pub fn downloads_to_open(resolved: Option<String>, configured: String) -> (dir: Option<String>)
    ensures
        ({
            let target = match resolved {
                Some(d) => d,
                None => configured,
            };
            dir == if target@.len() == 0 {
                None
            } else {
                Some(target)
            }
        }),
{
    let target = match resolved {
        Some(d) => d,
        None => configured,
    };
    let chars = chars_of(&target);
    if chars.len() == 0 {
        None
    } else {
        Some(target)
    }
}

/// How often a busy worker is looked at before the application quits anyway.
pub const QUIT_LOOKS: u32 = 50;

/// What to do while the application is to quit.
#[derive(Clone, Copy, Debug, PartialEq, Eq, Structural)]
pub enum QuitStep {
    /// Quit: no file is being processed.
    Exit,
    /// Wait, then look again.
    Sleep,
    /// Quit although a file is being processed.
    TimedOut,
}

/// The wait for a file that is being processed.
#[derive(Clone, Copy, Debug, PartialEq, Eq, Structural)]
pub struct QuitWait {
    /// How many looks may still be followed by a wait.
    pub left: u32,
}

impl QuitWait {
    /// The wait before the first look.
    pub fn new() -> (w: QuitWait)
        ensures
            w.left == QUIT_LOOKS,
    {
        QuitWait { left: QUIT_LOOKS }
    }

    /// Looks whether a file is being processed.
    pub fn look(&mut self, busy: bool) -> (step: QuitStep)
        ensures
            step == quit_step(old(self).left as nat, busy),
            final(self).left == if step == QuitStep::Sleep {
                old(self).left - 1
            } else {
                old(self).left as int
            },
    {
        if !busy {
            return QuitStep::Exit;
        }
        if self.left == 0 {
            return QuitStep::TimedOut;
        }
        self.left = self.left - 1;
        QuitStep::Sleep
    }
}

/// What a look leads to, where `left` looks may still be followed by a wait.
pub open spec fn quit_step(left: nat, busy: bool) -> QuitStep {
    if !busy {
        QuitStep::Exit
    } else if left == 0 {
        QuitStep::TimedOut
    } else {
        QuitStep::Sleep
    }
}

/// The step that a wait with `left` looks ends with, from look `at` on.
pub open spec fn quit_end(left: nat, busy: Seq<bool>, at: int) -> QuitStep
    decreases left,
{
    match quit_step(left, busy[at]) {
        QuitStep::Sleep if left > 0 => quit_end((left - 1) as nat, busy, at + 1),
        step => step,
    }
}

proof fn lemma_quit_end(left: nat, busy: Seq<bool>, at: int)
    requires
        0 <= at,
        busy.len() > at + left,
    ensures
        quit_end(left, busy, at) == QuitStep::TimedOut <==> forall|k: int|
            at <= k <= at + left ==> #[trigger] busy[k],
        quit_end(left, busy, at) != QuitStep::Sleep,
    decreases left,
{
    if busy[at] && left > 0 {
        lemma_quit_end((left - 1) as nat, busy, at + 1);
        if forall|k: int| at + 1 <= k <= at + left ==> #[trigger] busy[k] {
            assert forall|k: int| at <= k <= at + left implies #[trigger] busy[k] by {}
        }
    }
}

/// Quitting cuts a file off only when the worker was busy at every single look.
pub proof fn law_quitting_waits_for_the_worker(busy: Seq<bool>)
    requires
        busy.len() == QUIT_LOOKS + 1,
    ensures
        quit_end(QUIT_LOOKS as nat, busy, 0) == QuitStep::TimedOut <==> forall|k: int|
            0 <= k <= QUIT_LOOKS ==> #[trigger] busy[k],
{
    lemma_quit_end(QUIT_LOOKS as nat, busy, 0);
}

/// The registry keys in what the clean-up script printed: its lines without
/// white space around them, except empty ones.
pub open spec fn removed_keys(list: Seq<Seq<char>>) -> Seq<Seq<char>>
    decreases list.len(),
{
    if list.len() == 0 {
        Seq::empty()
    } else {
        let before = removed_keys(list.drop_last());
        if trimmed(list.last()).len() == 0 {
            before
        } else {
            before.push(trimmed(list.last()))
        }
    }
}

/// The script that removes the notification keys of this and of earlier versions
/// and prints each key that it removes.
pub fn cleanup_script() -> (script: &'static str)
    ensures
        script@
            == "$ids=@('NADT','com.nadt.app','com.nadt.ncmtool'); $paths=@('HKCU:\\Software\\Classes\\AppUserModelId','HKCU:\\SOFTWARE\\Microsoft\\Windows\\CurrentVersion\\Notifications\\Settings'); foreach($p in $paths){ foreach($k in (Get-ChildItem -Path $p -ErrorAction SilentlyContinue | Where-Object { $ids -contains $_.PSChildName })){ Write-Output ($p + '\\' + $k.PSChildName); Remove-Item -Path $k.PSPath -Recurse -Force -ErrorAction SilentlyContinue } }"@,
{
    "$ids=@('NADT','com.nadt.app','com.nadt.ncmtool'); $paths=@('HKCU:\\Software\\Classes\\AppUserModelId','HKCU:\\SOFTWARE\\Microsoft\\Windows\\CurrentVersion\\Notifications\\Settings'); foreach($p in $paths){ foreach($k in (Get-ChildItem -Path $p -ErrorAction SilentlyContinue | Where-Object { $ids -contains $_.PSChildName })){ Write-Output ($p + '\\' + $k.PSChildName); Remove-Item -Path $k.PSPath -Recurse -Force -ErrorAction SilentlyContinue } }"
}

/// The views of a list of messages.
pub open spec fn entry_views(list: Seq<Entry>) -> Seq<EntryView> {
    list.map_values(|e: Entry| e@)
}

/// The messages about the keys that were removed, and how many they are.
pub open spec fn cleanup_log(keys: Seq<Seq<char>>) -> Seq<EntryView> {
    keys.map_values(|key: Seq<char>| info("已删除 "@ + key)).push(
        info("清理完成，共 "@ + decimal(keys.len()) + " 项"@),
    )
}

/// What a clean-up leads to: the messages for the log, and an error where it
/// failed or found nothing.
pub open spec fn cleaned(success: bool, printed: Seq<char>) -> (
    Seq<EntryView>,
    Option<Seq<char>>,
) {
    let keys = removed_keys(lines(printed));
    if !success {
        (seq![error("清理失败"@)], Some("清理通知注册表失败"@))
    } else if keys.len() == 0 {
        (seq![info("没有找到需要清理的注册项"@)], Some("没有找到需要清理的注册项"@))
    } else {
        (cleanup_log(keys), None)
    }
}

fn list_keys(printed: &str) -> (keys: Vec<Vec<char>>)
    ensures
        char_views(keys@) == removed_keys(lines(printed@)),
{
    let list = split_lines(&chars_of(printed));
    let ghost all = char_views(list@);
    let mut keys: Vec<Vec<char>> = Vec::new();
    let mut i: usize = 0;
    assert(char_views(keys@) =~= removed_keys(all.take(0)));
    while i < list.len()
        invariant
            i <= list@.len(),
            all == char_views(list@),
            char_views(keys@) == removed_keys(all.take(i as int)),
        decreases list.len() - i,
    {
        let ghost before = char_views(keys@);
        assert(all.take(i + 1).drop_last() =~= all.take(i as int));
        assert(all.take(i + 1).last() == list@[i as int]@);
        let key = trim(&list[i]);
        if key.len() > 0 {
            let mut copy: Vec<char> = Vec::new();
            append_chars(&mut copy, key);
            assert(copy@ =~= key@);
            keys.push(copy);
            assert(char_views(keys@) =~= before.push(copy@));
        }
        i += 1;
    }
    assert(all.take(list@.len() as int) =~= all);
    keys
}

/// Takes up what the clean-up script printed.
pub fn clear_notification_registry(success: bool, stdout: &[u8]) -> (r: (
    Vec<Entry>,
    Result<(), &'static str>,
))
    ensures
        ({
            let want = cleaned(success, lossy_text(stdout@));
            &&& entry_views(r.0@) == want.0
            &&& match r.1 {
                Ok(_) => want.1 is None,
                Err(m) => want.1 == Some(m@),
            }
        }),
{
    let mut log: Vec<Entry> = Vec::new();
    if !success {
        log.push(Entry { level: Level::Error, message: "清理失败".to_string() });
        assert(entry_views(log@) =~= seq![error("清理失败"@)]);
        return (log, Err("清理通知注册表失败"));
    }
    let keys = list_keys(&decode_lossy(stdout));
    let ghost all = char_views(keys@);
    assert(all.len() == keys@.len());
    if keys.len() == 0 {
        log.push(
            Entry { level: Level::Info, message: "没有找到需要清理的注册项".to_string() },
        );
        assert(entry_views(log@) =~= seq![info("没有找到需要清理的注册项"@)]);
        return (log, Err("没有找到需要清理的注册项"));
    }
    let ghost told = all.map_values(|key: Seq<char>| info("已删除 "@ + key));
    let mut i: usize = 0;
    while i < keys.len()
        invariant
            i <= keys@.len(),
            all == char_views(keys@),
            told == all.map_values(|key: Seq<char>| info("已删除 "@ + key)),
            entry_views(log@) =~= told.take(i as int),
        decreases keys.len() - i,
    {
        let ghost before = entry_views(log@);
        let mut m = chars_of("已删除 ");
        append_chars(&mut m, &keys[i]);
        let entry = Entry { level: Level::Info, message: string_of(&m) };
        assert(entry@ == told[i as int]);
        log.push(entry);
        assert(entry_views(log@) =~= before.push(entry@));
        i += 1;
        assert(entry_views(log@) =~= told.take(i as int));
    }
    let ghost before = entry_views(log@);
    assert(before =~= told);
    let mut m = chars_of("清理完成，共 ");
    push_number(&mut m, keys.len() as u64);
    append_str(&mut m, " 项");
    let entry = Entry { level: Level::Info, message: string_of(&m) };
    log.push(entry);
    assert(entry_views(log@) =~= before.push(entry@));
    (log, Ok(()))
}

/// The first line of the log, with the data directory if it is known.
pub fn startup_message(data_dir: Option<&str>) -> (m: String)
    ensures
        m@ == "NADT 启动 | 数据目录: "@ + match data_dir {
            Some(dir) => dir@,
            None => "未知"@,
        },
{
    let mut m = chars_of("NADT 启动 | 数据目录: ");
    append_str(
        &mut m,
        match data_dir {
            Some(dir) => dir,
            None => "未知",
        },
    );
    string_of(&m)
}

/// The line logged when a silent start could not start monitoring.
pub fn silent_start_message(error: &str) -> (m: String)
    ensures
        m@ == "静默启动: 自动启用监控失败: "@ + error@,
{
    let mut m = chars_of("静默启动: 自动启用监控失败: ");
    append_str(&mut m, error);
    string_of(&m)
}

} // verus!

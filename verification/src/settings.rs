//! Settings: their defaults, where they live, how they are loaded and saved.

use vstd::prelude::*;
use crate::paths::{join_path, path_in};
use crate::text::{
    append_chars, append_str, bool_text, char_views, chars_of, join, joined, push_signed, same_text,
    signed_decimal, str_views, string_of, text_view, trim, trimmed,
};

verus! {

/// The geometry of the window in logical pixels. `N` is the number type of its
/// width and height.
#[derive(Clone, Copy, Debug)]
pub struct WindowState<N> {
    pub x: i32,
    pub y: i32,
    pub width: N,
    pub height: N,
    /// Whether the window was maximised.
    pub maximized: bool,
}

/// The settings.
#[derive(Clone, Debug)]
pub struct Config<N> {
    pub download_dir: String,
    pub output_dir: String,
    pub enable_notification: bool,
    pub enable_sound: bool,
    pub enable_tray_flash: bool,
    /// Keep only the essential tags.
    pub minimal_metadata: bool,
    pub embed_lrc: bool,
    /// Delete the input once it was decoded.
    pub shred_mode: bool,
    pub first_run: bool,
    /// Keep the main window above other windows.
    pub always_on_top: bool,
    /// The close button hides the window.
    pub close_to_tray: bool,
    /// Start hidden, and monitor at once.
    pub silent_start: bool,
    /// `dark`, `light` or `system`.
    pub theme: String,
    /// How many files were ever decoded.
    pub total_processed: u64,
    /// The geometry of the window, once it is known.
    pub window: Option<WindowState<N>>,
}

/// What the settings say, with texts as sequences.
pub struct ConfigView<N> {
    pub download_dir: Seq<char>,
    pub output_dir: Seq<char>,
    pub enable_notification: bool,
    pub enable_sound: bool,
    pub enable_tray_flash: bool,
    pub minimal_metadata: bool,
    pub embed_lrc: bool,
    pub shred_mode: bool,
    pub first_run: bool,
    pub always_on_top: bool,
    pub close_to_tray: bool,
    pub silent_start: bool,
    pub theme: Seq<char>,
    pub total_processed: u64,
    pub window: Option<WindowState<N>>,
}

impl<N> View for Config<N> {
    type V = ConfigView<N>;

    open spec fn view(&self) -> ConfigView<N> {
        ConfigView {
            download_dir: self.download_dir@,
            output_dir: self.output_dir@,
            enable_notification: self.enable_notification,
            enable_sound: self.enable_sound,
            enable_tray_flash: self.enable_tray_flash,
            minimal_metadata: self.minimal_metadata,
            embed_lrc: self.embed_lrc,
            shred_mode: self.shred_mode,
            first_run: self.first_run,
            always_on_top: self.always_on_top,
            close_to_tray: self.close_to_tray,
            silent_start: self.silent_start,
            theme: self.theme@,
            total_processed: self.total_processed,
            window: self.window,
        }
    }
}

/// The theme of new settings.
pub fn default_theme() -> (theme: String)
    ensures
        theme@ == "system"@,
{
    "system".to_string()
}

/// The directory that new settings export to: a folder of the user's downloads.
pub open spec fn export_dir(profile: Option<Seq<char>>, sep: char) -> Seq<char> {
    let home = match profile {
        Some(dir) => dir,
        None => "."@,
    };
    path_in(path_in(home, "Downloads"@, sep), "NADT Export"@, sep)
}

/// The directory that new settings export to, for the user's profile directory
/// if it is known.
pub fn default_output_dir(profile: Option<&str>, sep: char) -> (dir: String)
    ensures
        dir@ == export_dir(text_view(profile), sep),
{
    let home = match profile {
        Some(p) => p,
        None => ".",
    };
    join_path(&join_path(home, "Downloads", sep), "NADT Export", sep)
}

/// New settings.
pub open spec fn new_settings<N>(output_dir: Seq<char>) -> ConfigView<N> {
    ConfigView {
        download_dir: Seq::empty(),
        output_dir,
        enable_notification: true,
        enable_sound: true,
        enable_tray_flash: true,
        minimal_metadata: false,
        embed_lrc: false,
        shred_mode: false,
        first_run: true,
        always_on_top: false,
        close_to_tray: false,
        silent_start: false,
        theme: "system"@,
        total_processed: 0,
        window: None,
    }
}

impl<N> Config<N> {
    /// New settings that export to `output_dir`.
    pub fn with_output_dir(output_dir: String) -> (cfg: Config<N>)
        ensures
            cfg@ == new_settings::<N>(output_dir@),
    {
        Config {
            download_dir: String::new(),
            output_dir,
            enable_notification: true,
            enable_sound: true,
            enable_tray_flash: true,
            minimal_metadata: false,
            embed_lrc: false,
            shred_mode: false,
            first_run: true,
            always_on_top: false,
            close_to_tray: false,
            silent_start: false,
            theme: default_theme(),
            total_processed: 0,
            window: None,
        }
    }
}

/// What was found in a directory on the way up from the executable.
#[derive(Clone, Copy, Debug)]
pub struct Level {
    /// It holds a directory `data`.
    pub has_data: bool,
    /// It holds a directory `src-tauri`.
    pub has_sources: bool,
}

/// How many directories are looked at, the executable's own among them.
pub const LEVELS: usize = 6;

/// Whether a directory is recognised as the root: it holds the data, or the
/// sources during development.
pub open spec fn is_root(level: Level) -> bool {
    level.has_data || level.has_sources
}

/// Whether `root` is the first of the levels that is recognised as the root,
/// among the first six. Where none is, it is the executable's own directory.
pub open spec fn is_first_root(levels: Seq<Level>, root: int) -> bool {
    ||| 0 <= root < levels.len() && root < LEVELS && is_root(levels[root]) && forall|j: int|
        0 <= j < root ==> !is_root(#[trigger] levels[j])
    ||| root == 0 && forall|j: int|
        0 <= j < levels.len() && j < LEVELS ==> !is_root(#[trigger] levels[j])
}

/// Finds the directory that the application lives in. The levels start with the
/// executable's own directory and go up; the result is one of them.
pub fn resolve_root(levels: &[Level]) -> (root: usize)
    ensures
        is_first_root(levels@, root as int),
{
    let mut i: usize = 0;
    while i < levels.len() && i < LEVELS
        invariant
            i <= levels@.len(),
            i <= LEVELS,
            forall|j: int| 0 <= j < i ==> !is_root(#[trigger] levels@[j]),
        decreases levels.len() - i,
    {
        if levels[i].has_data || levels[i].has_sources {
            return i;
        }
        i += 1;
    }
    0
}

/// The directory of the run time data, for the directory that the application
/// lives in.
pub fn data_dir(root: &str, sep: char) -> (dir: String)
    ensures
        dir@ == path_in(root@, "data"@, sep),
{
    join_path(root, "data", sep)
}

/// The path of the settings file.
pub fn config_path(data_dir: &str, sep: char) -> (path: String)
    ensures
        path@ == path_in(data_dir@, "settings.json"@, sep),
{
    join_path(data_dir, "settings.json", sep)
}

/// Whether the settings name an output directory.
pub open spec fn names_output<N>(cfg: ConfigView<N>) -> bool {
    trimmed(cfg.output_dir).len() > 0
}

/// Whether the output directory is to be created.
pub fn wants_output_dir<N>(cfg: &Config<N>) -> (yes: bool)
    ensures
        yes == names_output(cfg@),
{
    trim(&chars_of(cfg.output_dir.as_str())).len() > 0
}

/// What to do at the start: the settings to use, and what to create.
pub struct Loaded<N> {
    pub config: Config<N>,
    /// Create the output directory.
    pub create_output: bool,
    /// Save the settings.
    pub save: bool,
}

/// Decides on the settings to start with. `located` says whether the place of
/// the settings file is known, and `stored` holds what was read from it. New
/// settings are used, and saved, where the file is missing or unreadable.
pub fn load<N>(located: bool, stored: Option<Config<N>>, output_dir: String) -> (l: Loaded<N>)
    ensures
        l.config@ == match stored {
            Some(cfg) if located => cfg@,
            _ => new_settings::<N>(output_dir@),
        },
        l.create_output == (located && names_output(l.config@)),
        l.save == (located && stored is None),
{
    if !located {
        return Loaded {
            config: Config::with_output_dir(output_dir),
            create_output: false,
            save: false,
        };
    }
    match stored {
        Some(config) => {
            let create_output = wants_output_dir(&config);
            Loaded { config, create_output, save: false }
        },
        None => {
            let config = Config::with_output_dir(output_dir);
            let create_output = wants_output_dir(&config);
            Loaded { config, create_output, save: true }
        },
    }
}

/// The settings after the user submitted new ones. The counter belongs to the
/// queue and the geometry to the window, so both stay.
pub open spec fn accepted<N>(current: ConfigView<N>, submitted: ConfigView<N>) -> ConfigView<N> {
    ConfigView { total_processed: current.total_processed, window: current.window, ..submitted }
}

/// The settings after the user submitted new ones.
pub fn accept<N: Copy>(current: &Config<N>, submitted: Config<N>) -> (cfg: Config<N>)
    ensures
        cfg@ == accepted(current@, submitted@),
{
    let mut cfg = submitted;
    cfg.total_processed = current.total_processed;
    cfg.window = current.window;
    cfg
}

/// The names of the settings that the user can change.
pub open spec fn setting_names() -> Seq<Seq<char>> {
    seq![
        "download_dir"@,
        "output_dir"@,
        "theme"@,
        "enable_notification"@,
        "enable_sound"@,
        "enable_tray_flash"@,
        "minimal_metadata"@,
        "embed_lrc"@,
        "shred_mode"@,
        "always_on_top"@,
        "close_to_tray"@,
        "silent_start"@,
    ]
}

/// The values of those settings as texts, in the same order.
pub open spec fn shown<N>(cfg: ConfigView<N>) -> Seq<Seq<char>> {
    seq![
        cfg.download_dir,
        cfg.output_dir,
        cfg.theme,
        bool_text(cfg.enable_notification),
        bool_text(cfg.enable_sound),
        bool_text(cfg.enable_tray_flash),
        bool_text(cfg.minimal_metadata),
        bool_text(cfg.embed_lrc),
        bool_text(cfg.shred_mode),
        bool_text(cfg.always_on_top),
        bool_text(cfg.close_to_tray),
        bool_text(cfg.silent_start),
    ]
}

/// Of the first `n` settings, those whose values differ.
pub open spec fn differences(
    names: Seq<Seq<char>>,
    before: Seq<Seq<char>>,
    after: Seq<Seq<char>>,
    n: nat,
) -> Seq<Seq<char>>
    decreases n,
{
    if n == 0 {
        Seq::empty()
    } else {
        let k = n - 1;
        let earlier = differences(names, before, after, k as nat);
        if before[k] == after[k] {
            earlier
        } else {
            earlier.push(names[k] + ": "@ + before[k] + " → "@ + after[k])
        }
    }
}

/// The changes between two settings, in a fixed order. The counter and the
/// geometry are no settings of the user.
pub open spec fn changes<N>(before: ConfigView<N>, after: ConfigView<N>) -> Seq<Seq<char>> {
    differences(setting_names(), shown(before), shown(after), setting_names().len())
}

/// The line logged when settings were saved.
pub open spec fn change_text(list: Seq<Seq<char>>) -> Seq<char> {
    if list.len() == 0 {
        "配置保存（无变化）"@
    } else {
        "配置变更: "@ + joined(list, ", "@)
    }
}

fn show(b: bool) -> (text: &'static str)
    ensures
        text@ == bool_text(b),
{
    if b {
        "true"
    } else {
        "false"
    }
}

fn list_names() -> (names: Vec<&'static str>)
    ensures
        str_views(names@) == setting_names(),
{
    let mut names: Vec<&'static str> = Vec::new();
    names.push("download_dir");
    names.push("output_dir");
    names.push("theme");
    names.push("enable_notification");
    names.push("enable_sound");
    names.push("enable_tray_flash");
    names.push("minimal_metadata");
    names.push("embed_lrc");
    names.push("shred_mode");
    names.push("always_on_top");
    names.push("close_to_tray");
    names.push("silent_start");
    assert(str_views(names@) =~= setting_names());
    names
}

fn show_all<N>(cfg: &Config<N>) -> (values: Vec<&str>)
    ensures
        str_views(values@) == shown(cfg@),
{
    let mut values: Vec<&str> = Vec::new();
    values.push(cfg.download_dir.as_str());
    values.push(cfg.output_dir.as_str());
    values.push(cfg.theme.as_str());
    values.push(show(cfg.enable_notification));
    values.push(show(cfg.enable_sound));
    values.push(show(cfg.enable_tray_flash));
    values.push(show(cfg.minimal_metadata));
    values.push(show(cfg.embed_lrc));
    values.push(show(cfg.shred_mode));
    values.push(show(cfg.always_on_top));
    values.push(show(cfg.close_to_tray));
    values.push(show(cfg.silent_start));
    assert(str_views(values@) =~= shown(cfg@));
    values
}

fn list_changes<N>(before: &Config<N>, after: &Config<N>) -> (list: Vec<Vec<char>>)
    ensures
        char_views(list@) == changes(before@, after@),
{
    let names = list_names();
    let one = show_all(before);
    let two = show_all(after);
    assert(str_views(names@).len() == names@.len());
    assert(str_views(one@).len() == one@.len());
    assert(str_views(two@).len() == two@.len());
    let mut list: Vec<Vec<char>> = Vec::new();
    let mut i: usize = 0;
    assert(char_views(list@) =~= Seq::<Seq<char>>::empty());
    while i < names.len()
        invariant
            i <= names@.len() == one@.len() == two@.len(),
            char_views(list@) == differences(
                str_views(names@),
                str_views(one@),
                str_views(two@),
                i as nat,
            ),
        decreases names.len() - i,
    {
        let ghost all = char_views(list@);
        assert(str_views(one@)[i as int] == one@[i as int]@);
        assert(str_views(two@)[i as int] == two@[i as int]@);
        assert(str_views(names@)[i as int] == names@[i as int]@);
        if !same_text(one[i], two[i]) {
            let mut entry = chars_of(names[i]);
            append_str(&mut entry, ": ");
            append_str(&mut entry, one[i]);
            append_str(&mut entry, " → ");
            append_str(&mut entry, two[i]);
            list.push(entry);
            assert(char_views(list@) =~= all.push(entry@));
        }
        i += 1;
    }
    list
}

/// The line logged when settings were saved: what changed, or that nothing did.
pub fn change_message<N>(before: &Config<N>, after: &Config<N>) -> (message: String)
    ensures
        message@ == change_text(changes(before@, after@)),
{
    let list = list_changes(before, after);
    assert(char_views(list@).len() == list@.len());
    if list.len() == 0 {
        "配置保存（无变化）".to_string()
    } else {
        let mut message = chars_of("配置变更: ");
        let parts = join(&list, &chars_of(", "));
        append_chars(&mut message, &parts);
        string_of(&message)
    }
}

/// Takes up settings that the user submitted: the settings to save and to use
/// from then on, and the line for the log.
pub fn save_config<N: Copy>(current: &Config<N>, submitted: Config<N>) -> (saved: (Config<N>, String))
    ensures
        saved.0@ == accepted(current@, submitted@),
        saved.1@ == change_text(changes(current@, saved.0@)),
{
    let cfg = accept(current, submitted);
    let message = change_message(current, &cfg);
    (cfg, message)
}

/// The geometry to remember. A maximised or full-screen window covers the
/// screen, so its geometry is carried over and only the flag is updated; `zero`
/// stands for a size that is not known. Otherwise the measured geometry counts,
/// if it could be measured.
pub open spec fn remembered<N>(
    saved: Option<WindowState<N>>,
    maximized: bool,
    fullscreen: bool,
    measured: Option<WindowState<N>>,
    zero: N,
) -> Option<WindowState<N>> {
    if maximized || fullscreen {
        Some(
            match saved {
                Some(w) => WindowState { maximized, ..w },
                None => WindowState { x: 0, y: 0, width: zero, height: zero, maximized },
            },
        )
    } else {
        match measured {
            Some(w) => Some(WindowState { maximized: false, ..w }),
            None => None,
        }
    }
}

/// Decides on the geometry to remember. `None` means that nothing is saved.
pub fn save_window_state<N: Copy>(
    saved: Option<WindowState<N>>,
    maximized: bool,
    fullscreen: bool,
    measured: Option<WindowState<N>>,
    zero: N,
) -> (state: Option<WindowState<N>>)
    ensures
        state == remembered(saved, maximized, fullscreen, measured, zero),
{
    if maximized || fullscreen {
        let mut geometry = match saved {
            Some(w) => w,
            None => WindowState { x: 0, y: 0, width: zero, height: zero, maximized: true },
        };
        geometry.maximized = maximized;
        Some(geometry)
    } else {
        match measured {
            Some(w) => {
                let mut geometry = w;
                geometry.maximized = false;
                Some(geometry)
            },
            None => None,
        }
    }
}

/// Where the window opens.
#[derive(Clone, Copy, Debug, PartialEq, Eq, Structural)]
pub enum Placement {
    /// At its last place, maximised or not.
    Restore { maximize: bool },
    /// In the middle, since its last place is on no screen.
    OffScreen,
    /// In the middle, since there is no last place.
    FirstRun,
}

/// Where the window opens, for its saved geometry and whether that overlaps a
/// screen.
pub open spec fn placement<N>(saved: Option<WindowState<N>>, visible: bool) -> Placement {
    match saved {
        Some(w) if visible => Placement::Restore { maximize: w.maximized },
        Some(_) => Placement::OffScreen,
        None => Placement::FirstRun,
    }
}

/// Decides where the window opens. `visible` says whether the saved geometry
/// overlaps a screen.
pub fn place_window<N>(saved: &Option<WindowState<N>>, visible: bool) -> (p: Placement)
    ensures
        p == placement(*saved, visible),
{
    match saved {
        Some(w) => if visible {
            Placement::Restore { maximize: w.maximized }
        } else {
            Placement::OffScreen
        },
        None => Placement::FirstRun,
    }
}

/// The line logged when the window's last place is on no screen.
pub fn off_screen_message(x: i32, y: i32) -> (message: String)
    ensures
        message@ == "窗口位置 ("@ + signed_decimal(x as int) + ", "@ + signed_decimal(y as int)
            + ") 不在任何显示器内，改为居中显示"@,
{
    let mut message = chars_of("窗口位置 (");
    push_signed(&mut message, x);
    append_str(&mut message, ", ");
    push_signed(&mut message, y);
    append_str(&mut message, ") 不在任何显示器内，改为居中显示");
    string_of(&message)
}

/// Whatever the user submits, the counter and the geometry stay.
pub proof fn law_saving_keeps_counter_and_window<N>(current: ConfigView<N>, submitted: ConfigView<N>)
    ensures
        accepted(current, submitted).total_processed == current.total_processed,
        accepted(current, submitted).window == current.window,
        accepted(accepted(current, submitted), submitted) == accepted(current, submitted),
{
}

proof fn lemma_no_differences(
    names: Seq<Seq<char>>,
    before: Seq<Seq<char>>,
    after: Seq<Seq<char>>,
    n: nat,
)
    ensures
        differences(names, before, after, n).len() == 0 <==> forall|k: int|
            0 <= k < n ==> before[k] == #[trigger] after[k],
    decreases n,
{
    if n > 0 {
        lemma_no_differences(names, before, after, (n - 1) as nat);
    }
}

/// Nothing is reported exactly when no setting of the user changed.
pub proof fn law_silent_iff_unchanged<N>(before: ConfigView<N>, after: ConfigView<N>)
    ensures
        changes(before, after).len() == 0 <==> after == (ConfigView {
            first_run: after.first_run,
            total_processed: after.total_processed,
            window: after.window,
            ..before
        }),
{
    reveal_strlit("true");
    reveal_strlit("false");
    assert(bool_text(true)[0] != bool_text(false)[0]);
    let one = shown(before);
    let two = shown(after);
    lemma_no_differences(setting_names(), one, two, 12);
    if changes(before, after).len() == 0 {
        assert(one[0] == two[0] && one[1] == two[1] && one[2] == two[2] && one[3] == two[3]
            && one[4] == two[4] && one[5] == two[5] && one[6] == two[6] && one[7] == two[7]
            && one[8] == two[8] && one[9] == two[9] && one[10] == two[10] && one[11] == two[11]);
    }
}

/// Maximising the window never loses the geometry that the user chose.
pub proof fn law_maximising_keeps_geometry<N>(
    saved: WindowState<N>,
    maximized: bool,
    fullscreen: bool,
    measured: Option<WindowState<N>>,
    zero: N,
)
    requires
        maximized || fullscreen,
    ensures
        remembered(Some(saved), maximized, fullscreen, measured, zero) == Some(
            WindowState { maximized, ..saved },
        ),
{
}

/// With new settings the window opens in the middle, and so it does wherever its
/// last place is on no screen.
pub proof fn law_window_opens_on_a_screen<N>(
    output_dir: Seq<char>,
    saved: Option<WindowState<N>>,
    visible: bool,
)
    ensures
        placement(new_settings::<N>(output_dir).window, visible) == Placement::FirstRun,
        placement(saved, visible) is Restore ==> visible,
{
}

} // verus!

//! Desktop notifications: their source, their icon and their content.

use vstd::prelude::*;
use crate::paths::{join_path, path_in};
use crate::text::{append_str, chars_of, string_of, string_view, text_view};

verus! {

/// The name under which the application registers as a source of notifications.
pub const APP_ID: &'static str = "NADT";

/// The name shown on every notification.
pub const APP_NAME: &'static str = "NADT";

/// The path of a file in the data directory, if the directory is known and the
/// file exists.
pub open spec fn found_file(
    data_dir: Option<Seq<char>>,
    name: Seq<char>,
    exists: bool,
    sep: char,
) -> Option<Seq<char>> {
    match data_dir {
        Some(dir) if exists => Some(path_in(dir, name, sep)),
        _ => None,
    }
}

/// The path of the logo, `NADT.png`, if it is there.
pub fn logo_path(data_dir: Option<&str>, exists: bool, sep: char) -> (path: Option<String>)
    ensures
        string_view(path) == found_file(text_view(data_dir), "NADT.png"@, exists, sep),
{
    match data_dir {
        Some(dir) => if exists {
            Some(join_path(dir, "NADT.png", sep))
        } else {
            None
        },
        None => None,
    }
}

/// The path of the icon, `NADT.ico`, if it is there.
pub fn icon_path(data_dir: Option<&str>, exists: bool, sep: char) -> (path: Option<String>)
    ensures
        string_view(path) == found_file(text_view(data_dir), "NADT.ico"@, exists, sep),
{
    match data_dir {
        Some(dir) => if exists {
            Some(join_path(dir, "NADT.ico", sep))
        } else {
            None
        },
        None => None,
    }
}

/// The icon of the notifications' source: the logo, or else the icon.
pub fn toast_icon(logo: Option<String>, icon: Option<String>) -> (path: Option<String>)
    ensures
        path == if logo is Some {
            logo
        } else {
            icon
        },
{
    match logo {
        Some(p) => Some(p),
        None => icon,
    }
}

/// The script that registers the application as a source of notifications for
/// the current user, with its name and its icon.
pub open spec fn registration(icon: Seq<char>) -> Seq<char> {
    "$ErrorActionPreference='SilentlyContinue'\n$id = 'HKCU:\\Software\\Classes\\AppUserModelId\\"@
        + APP_ID@
        + "'\nNew-Item -Path $id -Force | Out-Null\nSet-ItemProperty -Path $id -Name 'DisplayName' -Value '"@
        + APP_NAME@ + "'\nif ('"@ + icon
        + "') { Set-ItemProperty -Path $id -Name 'IconUri' -Value '"@ + icon
        + "' }\n$ns = 'HKCU:\\SOFTWARE\\Microsoft\\Windows\\CurrentVersion\\Notifications\\Settings\\"@
        + APP_ID@
        + "'\nNew-Item -Path $ns -Force | Out-Null\nSet-ItemProperty -Path $ns -Name 'Enabled' -Value 1 -Type DWord\n"@
}

/// The script that registers the application as a source of notifications.
pub fn register_app_id(icon: Option<String>) -> (script: String)
    ensures
        script@ == registration(
            match icon {
                Some(path) => path@,
                None => Seq::empty(),
            },
        ),
{
    let icon = match icon {
        Some(path) => path,
        None => String::new(),
    };
    let mut script = chars_of(
        "$ErrorActionPreference='SilentlyContinue'\n$id = 'HKCU:\\Software\\Classes\\AppUserModelId\\",
    );
    append_str(&mut script, APP_ID);
    append_str(
        &mut script,
        "'\nNew-Item -Path $id -Force | Out-Null\nSet-ItemProperty -Path $id -Name 'DisplayName' -Value '",
    );
    append_str(&mut script, APP_NAME);
    append_str(&mut script, "'\nif ('");
    append_str(&mut script, &icon);
    append_str(&mut script, "') { Set-ItemProperty -Path $id -Name 'IconUri' -Value '");
    append_str(&mut script, &icon);
    append_str(
        &mut script,
        "' }\n$ns = 'HKCU:\\SOFTWARE\\Microsoft\\Windows\\CurrentVersion\\Notifications\\Settings\\",
    );
    append_str(&mut script, APP_ID);
    append_str(
        &mut script,
        "'\nNew-Item -Path $ns -Force | Out-Null\nSet-ItemProperty -Path $ns -Name 'Enabled' -Value 1 -Type DWord\n",
    );
    string_of(&script)
}

/// A notification. Its source is shown by the system, so the body does not
/// repeat it.
pub struct Toast {
    pub app_id: String,
    pub event: String,
    /// A second line, where there is a detail.
    pub detail: Option<String>,
    /// Whether the system's sound is played.
    pub sound: bool,
}

/// Builds a notification of an event. An empty detail is left out.
pub fn send_notification(event: &str, detail: &str, sound: bool) -> (toast: Toast)
    ensures
        toast.app_id@ == APP_ID@,
        toast.event@ == event@,
        string_view(toast.detail) == if detail@.len() == 0 {
            None
        } else {
            Some(detail@)
        },
        toast.sound == sound,
{
    let chars = chars_of(detail);
    let second = if chars.len() == 0 {
        None
    } else {
        Some(detail.to_string())
    };
    Toast { app_id: APP_ID.to_string(), event: event.to_string(), detail: second, sound }
}

} // verus!

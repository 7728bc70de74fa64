//! Switches kept in one-line files of the launcher's own directory.

use vstd::prelude::*;
use crate::paths::opt_text;
use crate::text::{lowercase, lowercased, same_text, trim, trimmed};

verus! {

/// What the file of a switch says: on where its text, without surrounding
/// whitespace, is `1` or, in any case of letters, `true`; off otherwise and
/// where the file could not be read.
pub open spec fn switch_on(content: Option<Seq<char>>) -> bool {
    match content {
        Some(text) => trimmed(text) == "1"@ || lowercased(trimmed(text)) == "true"@,
        None => false,
    }
}

/// Whether the render-farm monitor is switched on, from the content of the
/// file that holds the switch.
pub fn is_deadline_monitor_enabled(content: &Option<String>) -> (enabled: bool)
    ensures
        enabled == switch_on(opt_text(*content)),
{
    match content {
        Some(text) => {
            let t = trim(text.as_str());
            if same_text(t.as_str(), "1") {
                true
            } else {
                let lower = lowercase(t.as_str());
                same_text(lower.as_str(), "true")
            }
        },
        None => false,
    }
}

/// The text to write for the switch of the render-farm monitor.
pub fn set_deadline_monitor_enabled(enabled: bool) -> (content: String)
    ensures
        content@ == (if enabled {
            "1"@
        } else {
            "0"@
        }),
{
    if enabled {
        String::from_str("1")
    } else {
        String::from_str("0")
    }
}

/// What to do to the registry so that the launcher starts, or no longer
/// starts, when the user signs in.
#[derive(Debug)]
pub enum AutostartChange {
    /// Set the value `name` under `key` to `command`.
    Register { key: String, name: String, command: String },
    /// Delete the value `name` under `key`.
    Unregister { key: String, name: String },
}

/// The registry key, below the current user's root, that lists what starts at
/// sign-in.
pub open spec fn autostart_key() -> Seq<char> {
    "Software\\Microsoft\\Windows\\CurrentVersion\\Run"@
}

/// The name of the launcher's value under the autostart key.
pub open spec fn autostart_name() -> Seq<char> {
    "HoudiniLauncher"@
}

/// The registry key that lists what starts at sign-in.
pub fn autostart_registry_key() -> (key: String)
    ensures
        key@ == autostart_key(),
{
    String::from_str("Software\\Microsoft\\Windows\\CurrentVersion\\Run")
}

/// The name of the launcher's value under the autostart key.
pub fn autostart_value_name() -> (name: String)
    ensures
        name@ == autostart_name(),
{
    String::from_str("HoudiniLauncher")
}

/// The change that switches autostart on or off: on, the launcher's value is
/// set to the path of its executable; off, the value is deleted.
pub fn set_autostart(enabled: bool, exe_path: String) -> (change: AutostartChange)
    ensures
        enabled ==> (change matches AutostartChange::Register { key, name, command } && key@
            == autostart_key() && name@ == autostart_name() && command@ == exe_path@),
        !enabled ==> (change matches AutostartChange::Unregister { key, name } && key@
            == autostart_key() && name@ == autostart_name()),
{
    let key = autostart_registry_key();
    let name = autostart_value_name();
    if enabled {
        AutostartChange::Register { key, name, command: exe_path }
    } else {
        AutostartChange::Unregister { key, name }
    }
}

/// Whether autostart is switched on, from the launcher's value under the
/// autostart key: on where there is a value.
pub fn is_autostart_enabled(value: &Option<String>) -> (enabled: bool)
    ensures
        enabled == (*value is Some),
{
    value.is_some()
}

} // verus!

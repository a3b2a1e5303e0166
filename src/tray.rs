//! What a click on a tray-menu item asks for.
use vstd::prelude::*;
use vstd::string::*;
use crate::text::{chars_of, has_prefix, skip_chars, starts_with, string_of};

verus! {

/// The action behind one tray-menu item.
#[derive(Debug, Clone, PartialEq, Eq)]
pub enum TrayAction {
    /// Show the main window if hidden, hide it if shown.
    ToggleWindow,
    /// Ask the interface to fetch the display report again.
    RefreshDisplays,
    /// Bring the main window to the front.
    ShowMainWindow,
    Quit,
    /// Apply the preset with this id.
    ApplyPreset(String),
    /// An item id that means nothing here; carries the id.
    Unknown(String),
}

/// The prefix of the ids of items that apply a preset.
pub open spec fn preset_prefix() -> Seq<char> {
    "preset_"@
}

/// Whether `id` is one of the fixed items of the menu.
pub open spec fn is_fixed_item(id: Seq<char>) -> bool {
    id == "show_hide"@ || id == "refresh"@ || id == "manage_presets"@ || id == "quit"@
}

/// The action of the menu item with id `id`: the four fixed items, then
/// `preset_<id>` for a preset, and anything else is unknown.
pub fn handle_tray_menu_event(id: &str) -> (r: TrayAction)
    ensures
        match r {
            TrayAction::ToggleWindow => id@ == "show_hide"@,
            TrayAction::RefreshDisplays => id@ == "refresh"@,
            TrayAction::ShowMainWindow => id@ == "manage_presets"@,
            TrayAction::Quit => id@ == "quit"@,
            TrayAction::ApplyPreset(p) => !is_fixed_item(id@) && has_prefix(id@, preset_prefix())
                && p@ == id@.skip(preset_prefix().len() as int),
            TrayAction::Unknown(s) => !is_fixed_item(id@) && !has_prefix(id@, preset_prefix())
                && s@ == id@,
        },
{
    let s = String::from_str(id);
    if s == String::from_str("show_hide") {
        TrayAction::ToggleWindow
    } else if s == String::from_str("refresh") {
        TrayAction::RefreshDisplays
    } else if s == String::from_str("manage_presets") {
        TrayAction::ShowMainWindow
    } else if s == String::from_str("quit") {
        TrayAction::Quit
    } else {
        let cs = chars_of(id);
        let prefix = chars_of("preset_");
        if starts_with(&cs, &prefix) {
            let rest = skip_chars(&cs, prefix.len());
            TrayAction::ApplyPreset(string_of(&rest))
        } else {
            TrayAction::Unknown(s)
        }
    }
}

} // verus!

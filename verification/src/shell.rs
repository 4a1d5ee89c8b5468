//! The dashboard shell's keyboard shortcuts.

use vstd::prelude::*;
use crate::text::same_text;

verus! {

/// What a key press anywhere in the dashboard does.
#[derive(Debug, Clone, Copy, PartialEq, Eq, Structural)]
pub enum ShellKey {
    /// Open or close the command palette.
    TogglePalette,
    /// Dismiss the stop-server dialog.
    CloseShutdown,
    /// Dismiss the rename-machine dialog.
    CloseRenameMachine,
    /// Nothing.
    Ignore,
}

/// The command of a key press: with the command or control key held, `k` in either case
/// toggles the palette; `Escape` dismisses the stop-server dialog when it is open, else the
/// rename-machine dialog when that is open.
pub open spec fn key_command_of(modifier: bool, key: Seq<char>, shutdown_open: bool, rename_open: bool) -> ShellKey {
    if modifier && (key == "k"@ || key == "K"@) {
        ShellKey::TogglePalette
    } else if key == "Escape"@ && shutdown_open {
        ShellKey::CloseShutdown
    } else if key == "Escape"@ && rename_open {
        ShellKey::CloseRenameMachine
    } else {
        ShellKey::Ignore
    }
}

/// The command of a key press (see [`key_command_of`]); `modifier` is whether the command
/// or control key is held.
pub fn key_command(modifier: bool, key: &str, shutdown_open: bool, rename_open: bool) -> (r: ShellKey)
    ensures
        r == key_command_of(modifier, key@, shutdown_open, rename_open),
{
    if modifier && (same_text(key, "k") || same_text(key, "K")) {
        ShellKey::TogglePalette
    } else if same_text(key, "Escape") && shutdown_open {
        ShellKey::CloseShutdown
    } else if same_text(key, "Escape") && rename_open {
        ShellKey::CloseRenameMachine
    } else {
        ShellKey::Ignore
    }
}

} // verus!

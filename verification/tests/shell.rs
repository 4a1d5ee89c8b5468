use moadim_ui::shell::{key_command, ShellKey};

#[test]
fn command_k_toggles_the_palette_in_either_case() {
    assert_eq!(key_command(true, "k", false, false), ShellKey::TogglePalette);
    assert_eq!(key_command(true, "K", true, true), ShellKey::TogglePalette);
    assert_eq!(key_command(false, "k", false, false), ShellKey::Ignore);
    assert_eq!(key_command(true, "j", false, false), ShellKey::Ignore);
}

#[test]
fn escape_closes_the_open_dialog_shutdown_first() {
    assert_eq!(key_command(false, "Escape", true, true), ShellKey::CloseShutdown);
    assert_eq!(key_command(false, "Escape", false, true), ShellKey::CloseRenameMachine);
    assert_eq!(key_command(false, "Escape", false, false), ShellKey::Ignore);
}

use std::sync::mpsc;

use porda::platform::tray::{generate_tray_icon_argb, toggle_label, TrayAction, TrayManager, TrayState};
use porda::runtime::commands::UiCommand;
use porda::systray::{
    diagnose_tray_host, entry_icon, menu_actions, menu_entries, tray_action_to_ui_command,
    tray_host, MenuEntry, PordaTray, TrayGuard, TrayHost,
};

#[test]
fn tray_icon_is_valid() {
    let (w, h, data) = generate_tray_icon_argb();
    assert_eq!(w, 32);
    assert_eq!(h, 32);
    assert_eq!(data.len(), (w * h * 4) as usize);
    assert!(!data.is_empty());
    for chunk in data.chunks_exact(4) {
        assert_eq!(chunk[0], 255, "alpha must be opaque");
    }
}

#[test]
fn tray_action_labels_non_empty() {
    for action in TrayAction::menu_actions() {
        assert!(!action.label().is_empty());
    }
}

#[test]
fn tray_action_menu_no_duplicates() {
    let actions = TrayAction::menu_actions();
    let mut seen = std::collections::HashSet::new();
    for a in &actions {
        assert!(seen.insert(format!("{:?}", a)), "duplicate action {:?}", a);
    }
    assert!(actions.contains(&TrayAction::Show));
    assert!(actions.contains(&TrayAction::Exit));
}

#[test]
fn tray_menu_is_exactly_three_without_settings() {
    let actions = TrayAction::menu_actions();
    assert_eq!(actions.len(), 3);
    assert_eq!(
        actions,
        vec![TrayAction::Show, TrayAction::ToggleDetection, TrayAction::Exit]
    );
    for a in &actions {
        assert_ne!(a.label(), "Settings");
    }
    assert!(!actions.iter().any(|a| format!("{:?}", a).contains("OpenSettings")));
    let mut tray = TrayState::new();
    tray.set_tray_is_active(false);
    assert_eq!(tray.current_toggle_label(), "Activate");
    tray.set_tray_is_active(true);
    assert_eq!(tray.current_toggle_label(), "Deactivate");
    tray.set_tray_is_active(false);
}

#[test]
fn window_close_is_not_terminate() {
    assert_ne!(TrayAction::Show, TrayAction::Exit);
    assert_eq!(TrayAction::Show.label(), "Show");
    assert_eq!(TrayAction::Exit.label(), "Exit");
}

#[test]
fn tray_manager_send_and_receive() {
    let (tx, rx) = mpsc::channel();
    let mgr = TrayManager::new(tx);
    mgr.send_action(TrayAction::Show).unwrap();
    mgr.send_action(TrayAction::Exit).unwrap();
    assert_eq!(rx.recv().unwrap(), TrayAction::Show);
    assert_eq!(rx.recv().unwrap(), TrayAction::Exit);
}

#[test]
fn tray_icon_generated_valid() {
    let (w, h, data) = generate_tray_icon_argb();
    assert_eq!(w, 32);
    assert_eq!(h, 32);
    assert_eq!(data.len(), (w * h * 4) as usize);
    let white_pixels = data
        .chunks_exact(4)
        .filter(|c| c[1] == 255 && c[2] == 255 && c[3] == 255)
        .count();
    assert!(white_pixels > 0, "icon should contain white P shape");
}

#[test]
fn tray_action_to_command_mapping() {
    assert!(matches!(
        tray_action_to_ui_command(&TrayAction::Activate),
        Some(UiCommand::Activate)
    ));
    assert!(matches!(
        tray_action_to_ui_command(&TrayAction::Deactivate),
        Some(UiCommand::Deactivate)
    ));
    assert!(matches!(
        tray_action_to_ui_command(&TrayAction::ToggleDetection),
        Some(UiCommand::ToggleActivation)
    ));
    assert!(matches!(
        tray_action_to_ui_command(&TrayAction::TakeScreenshot),
        Some(UiCommand::TakeScreenshot)
    ));
    assert!(tray_action_to_ui_command(&TrayAction::Show).is_none());
    assert!(tray_action_to_ui_command(&TrayAction::Exit).is_none());
}

#[test]
fn duplicate_init_protection() {
    let mut guard = TrayGuard::new();
    let (tx, _rx) = mpsc::channel();
    let tray = PordaTray::new(tx);
    assert!(guard.claim().is_ok());
    let result = tray.run(&mut guard);
    assert!(result.is_err());
    assert!(result.unwrap_err().to_string().contains("already initialized"));
    guard.release();
    assert!(tray.run(&mut guard).is_ok());
}

#[test]
fn manager_sends_actions() {
    let (tx, rx) = mpsc::channel();
    let mgr = TrayManager::new(tx);
    mgr.send_action(TrayAction::Activate).unwrap();
    assert_eq!(rx.recv().unwrap(), TrayAction::Activate);
}

#[test]
fn lifecycle_window_close_not_terminate() {
    assert!(tray_action_to_ui_command(&TrayAction::Show).is_none());
    assert!(!matches!(
        tray_action_to_ui_command(&TrayAction::Show),
        Some(UiCommand::Terminate)
    ));
    assert!(tray_action_to_ui_command(&TrayAction::Exit).is_none());
}

#[test]
fn lifecycle_tray_exit_is_terminate_only() {
    let show = TrayAction::Show;
    let exit = TrayAction::Exit;
    assert_ne!(show, exit);
    assert_eq!(show.label(), "Show");
    assert_eq!(exit.label(), "Exit");
}

#[test]
fn lifecycle_show_is_only_ui_opener() {
    let actions = menu_actions();
    assert!(actions.contains(&TrayAction::Show));
    assert_eq!(actions.iter().filter(|a| **a == TrayAction::Show).count(), 1);
    assert_eq!(actions.len(), 5);
    assert_eq!(
        actions,
        vec![
            TrayAction::Show,
            TrayAction::Activate,
            TrayAction::Deactivate,
            TrayAction::TakeScreenshot,
            TrayAction::Exit
        ]
    );
}

#[test]
fn open_settings_removed() {
    let actions = TrayAction::menu_actions();
    for a in &actions {
        assert_ne!(a.label(), "Settings");
        assert_ne!(a.label(), "OpenSettings");
    }
    assert!(!actions.iter().any(|a| format!("{:?}", a).contains("OpenSettings")));
}

#[test]
fn tray_exit_is_only_termination_action() {
    assert_ne!(TrayAction::Show, TrayAction::Exit);
    let menu = menu_actions();
    assert_eq!(menu.len(), 5);
    assert!(menu.contains(&TrayAction::Show));
    assert!(menu.contains(&TrayAction::Exit));
    assert_eq!(menu.iter().filter(|a| **a == TrayAction::Show).count(), 1);
    for a in &menu {
        assert_ne!(format!("{:?}", a), "OpenSettings");
    }
}

#[test]
fn the_letter_is_white_on_purple() {
    let (_, _, data) = generate_tray_icon_argb();
    let pixel = |x: usize, y: usize| &data[(y * 32 + x) * 4..(y * 32 + x) * 4 + 4];
    assert_eq!(pixel(10, 8), &[255, 255, 255, 255]);
    assert_eq!(pixel(0, 0), &[255, 106, 90, 205]);
    assert_eq!(pixel(13, 25), &[255, 106, 90, 205]);
}

#[test]
fn labels_of_the_toggle() {
    assert_eq!(toggle_label(true), "Deactivate");
    assert_eq!(toggle_label(false), "Activate");
    let mut state = TrayState::new();
    assert!(!state.get_tray_is_active());
    state.set_tray_is_active(true);
    assert_eq!(TrayAction::current_toggle_label(&state), "Deactivate");
}

#[test]
fn entries_of_the_menu() {
    let entries = menu_entries();
    assert_eq!(entries.len(), 6);
    assert_eq!(entries[4], MenuEntry::Separator);
    assert_eq!(entry_icon(TrayAction::Exit), "application-exit");
    assert_eq!(entry_icon(TrayAction::Show), "");
}

#[test]
fn sending_to_a_tray_that_is_gone_fails() {
    let (tx, rx) = mpsc::channel();
    let tray = PordaTray::new(tx);
    drop(rx);
    assert!(tray.send_action(TrayAction::Show).is_err());
}

#[test]
fn desktops_that_show_the_icon() {
    assert_eq!(diagnose_tray_host("KDE", "wayland"), TrayHost::Kde);
    assert_eq!(diagnose_tray_host("ubuntu:GNOME", "x11"), TrayHost::Gnome);
    assert_eq!(diagnose_tray_host("sway", "WAYLAND"), TrayHost::Wayland);
    assert_eq!(diagnose_tray_host("sway", "x11"), TrayHost::Unknown);
    assert_eq!(tray_host("KDE", "x11"), TrayHost::Unknown);
}

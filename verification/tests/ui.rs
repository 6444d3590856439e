use std::sync::mpsc;

use porda::config::settings::PordaConfig;
use porda::runtime::commands::UiCommand;
use porda::ui::app::{navigate, sync_ui_to_state, ui_values, Lifecycle, ShowStep};
use porda::ui::commands::UiCommandHandler;
use porda::ui::state::UiState;

#[test]
fn parked_quit_initial_state() {
    let mut life = Lifecycle::new();
    assert!(!life.quit);
    assert!(!life.parked);
    life.quit = true;
    assert!(life.quit);
    life.parked = true;
    assert!(life.parked);
    life = Lifecycle::new();
    assert!(!life.quit);
    assert!(!life.parked);
}

#[test]
fn app_weak_ui_thread_resettable() {
    let mut life = Lifecycle::new();
    assert!(!life.has_window);
    assert!(!life.has_thread);
    life.has_thread = true;
    assert!(life.has_thread);
    life.has_thread = false;
    assert!(!life.has_thread);
    life.has_thread = true;
    assert!(life.has_thread);
    life.has_window = false;
    assert!(!life.has_window);
    life = Lifecycle::new();
    assert!(!life.has_window);
    assert!(!life.has_thread);
}

#[test]
fn request_show_window_handles_parked_state() {
    let mut life = Lifecycle::new();
    life.has_thread = true;
    life.parked = true;
    assert_eq!(life.request_show_window(), ShowStep::Unpark);
    life.has_window = true;
    assert_eq!(life.request_show_window(), ShowStep::Unpark);
}

#[test]
fn request_show_window_fallback_when_no_weak() {
    let mut life = Lifecycle::new();
    life.has_thread = true;
    life.parked = false;
    assert_eq!(life.request_show_window(), ShowStep::Unpark);
}

#[test]
fn request_quit_sets_quit_and_unparks() {
    let mut life = Lifecycle::new();
    assert!(!life.quit);
    life.has_thread = true;
    life.parked = true;
    assert!(life.request_quit());
    assert!(life.quit);
}

#[test]
fn the_life_of_a_window() {
    let mut life = Lifecycle::new();
    assert_eq!(life.request_show_window(), ShowStep::Nothing);
    life.started();
    assert_eq!(life.request_show_window(), ShowStep::Invoke);
    assert_eq!(life.after_failed_invoke(), ShowStep::Unpark);
    assert!(life.loop_ended());
    assert!(life.parked);
    assert_eq!(life.request_show_window(), ShowStep::Unpark);
    assert!(life.woken());
    assert!(!life.parked);
    life.request_quit();
    assert!(!life.loop_ended());
    assert!(!life.woken());
}

#[test]
fn settings_come_back_from_the_window() {
    let config = PordaConfig::default();
    let ui = UiState::from_config(&config);
    assert_eq!(
        ui.include_windows,
        "chrome.exe, msedge.exe, brave.exe, firefox.exe, opera.exe, PotPlayerMini64.exe, vlc.exe"
    );
    assert_eq!(ui.detection_state, "Sleep");
    let back = ui.to_config();
    assert_eq!(back.windows.include_windows, config.windows.include_windows);
    assert_eq!(back.windows.exclude_windows, config.windows.exclude_windows);
    assert_eq!(back.windows.always_skip_windows, config.windows.always_skip_windows);
    assert_eq!(back.detection.nms_threshold, config.detection.nms_threshold);
    assert_eq!(back.overlay, config.overlay);
    assert_eq!(back.performance.average_reading_interval, 30);
}

#[test]
fn lists_are_read_from_lines() {
    let mut ui = UiState::default();
    ui.include_windows = " a.exe ,, b.exe,  ".to_string();
    ui.exclude_windows = String::new();
    let config = ui.to_config();
    assert_eq!(config.windows.include_windows, vec!["a.exe", "b.exe"]);
    assert!(config.windows.exclude_windows.is_empty());
}

#[test]
fn choices_in_the_window_are_passed_on() {
    let (tx, rx) = mpsc::channel();
    let handler = UiCommandHandler::new(tx);
    let mut ui = UiState::default();
    handler.activate(&mut ui);
    assert!(ui.is_active);
    assert_eq!(ui.detection_state, "Active");
    assert!(matches!(rx.recv().unwrap(), UiCommand::Activate));
    handler.toggle_activation(&mut ui);
    assert!(!ui.is_active);
    assert_eq!(ui.detection_state, "Sleep");
    assert!(matches!(rx.recv().unwrap(), UiCommand::Deactivate));
    handler.toggle_activation(&mut ui);
    assert!(matches!(rx.recv().unwrap(), UiCommand::Activate));
    handler.deactivate(&mut ui);
    assert!(matches!(rx.recv().unwrap(), UiCommand::Deactivate));
    ui.accuracy = 99;
    handler.apply_settings(&ui);
    match rx.recv().unwrap() {
        UiCommand::ApplySettings(c) => assert_eq!(c.detection.accuracy, 99),
        _ => panic!("wrong command"),
    }
    handler.restore_defaults(&mut ui);
    assert_eq!(ui.accuracy, 25);
    assert!(matches!(rx.recv().unwrap(), UiCommand::RestoreDefaults));
    handler.save_settings();
    assert!(matches!(rx.recv().unwrap(), UiCommand::SaveSettings));
    handler.take_screenshot();
    assert!(matches!(rx.recv().unwrap(), UiCommand::TakeScreenshot));
    handler.refresh_hotkeys();
    assert!(matches!(rx.recv().unwrap(), UiCommand::RefreshHotkeys));
    handler.configure_global_shortcut();
    assert!(matches!(rx.recv().unwrap(), UiCommand::ConfigureGlobalShortcut));
    handler.terminate();
    assert!(matches!(rx.recv().unwrap(), UiCommand::Terminate));
}

#[test]
fn fields_of_the_window() {
    let mut ui = UiState::default();
    let mut values = ui_values(&ui);
    assert_eq!(values.accuracy, 25);
    assert_eq!(values.network_width, 544);
    values.accuracy = 300;
    values.active_timeout = -1;
    values.toggle_key = "F9".to_string();
    sync_ui_to_state(&mut ui, values);
    assert_eq!(ui.accuracy, 44);
    assert_eq!(ui.active_timeout_ms, u64::MAX);
    assert_eq!(ui.toggle_key, "F9");
    let same = ui_values(&ui);
    sync_ui_to_state(&mut ui, same);
    assert_eq!(ui.network_height, 320);
    navigate(&mut ui, 3);
    assert_eq!(ui.current_page, 3);
}

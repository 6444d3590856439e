use std::sync::mpsc;

use porda::config::defaults::{
    app_data_dir, app_data_dir_in, config_path, config_path_in, dataset_dir, directories_in,
    external_model_dir, initial_config,
};
use porda::config::settings::PordaConfig;
use porda::overlay::compositor::OverlayCapability;
use porda::path::{from_text, join};
use porda::platform::outputs::get_outputs;
use porda::platform::tray::TrayAction;
use porda::runtime::app_state::AppState;
use porda::runtime::commands::{CoreEvent, UiCommand};
use porda::runtime::pipeline::{
    choose_detector, covers_for_state, detection_request, looked, overlay_config, record_covers,
    record_detections, shows_covers, DetectorChoice, Pipeline, Step, IDLE_MS,
};
use porda::runtime::program::{
    handle_command, handle_event, handle_tray_action, screenshot_path, Effect,
    TrayEffect,
};
use porda::runtime::scheduler::Scheduler;
use porda::single::Single;
use porda::ui::state::UiState;
use porda::vision::detection::{
    CoverMode, CoverRect, Detection, DetectionState, FrameData, ObjectClass,
};
use porda::vision::geometry::{ColorRgb, ScreenRect};

fn single(x: f32) -> Single {
    Single { bits: x.to_bits() }
}

fn state() -> AppState {
    AppState::new(PordaConfig::default())
}

fn detection() -> Detection {
    Detection {
        class: ObjectClass::Female,
        confidence: single(0.9),
        screen_rect: ScreenRect::new(1, 1, 2, 2),
    }
}

#[test]
fn the_program_starts_with_detection_off() {
    let s = state();
    assert!(!s.is_active);
    assert!(!s.should_run_detection());
    assert_eq!(s.detection_state, DetectionState::Sleep);
    assert_eq!(s.detection_interval_ms(), 65);
    assert_eq!(f32::from_bits(s.confidence_threshold().bits), 25.0 / 100.0);
    assert_eq!(s.target_classes(), vec![1]);
    assert_eq!(s.cover_mode(), CoverMode::Blur);
    assert_eq!(s.solid_color(), ColorRgb::new(0, 0, 255));
}

#[test]
fn a_busy_processor_stops_detection() {
    let mut s = state();
    s.is_active = true;
    s.config.performance.is_allow_max_cpu_limit = true;
    s.config.performance.max_cpu_limit = 60;
    s.cpu_usage = single(60.0);
    assert!(s.should_run_detection());
    s.cpu_usage = single(60.1);
    assert!(!s.should_run_detection());
    s.config.performance.is_allow_max_cpu_limit = false;
    assert!(s.should_run_detection());
}

#[test]
fn ways_to_cover() {
    let mut s = state();
    s.config.overlay.is_blur = false;
    assert_eq!(s.cover_mode(), CoverMode::BackgroundColor);
    s.config.overlay.is_solid_color = true;
    assert_eq!(s.cover_mode(), CoverMode::SolidColor);
}

#[test]
fn detection_stays_on_until_it_is_turned_off() {
    let mut s = state();
    s.update_detection_state(true, 5);
    assert_eq!(s.detection_state, DetectionState::Sleep);
    assert_eq!(s.last_detection_time, None);
    s.is_active = true;
    s.update_detection_state(true, 5);
    s.update_detection_state(false, 9);
    assert_eq!(s.detection_state, DetectionState::Active);
    assert_eq!(s.last_detection_time, Some(5));
}

#[test]
fn the_turns_of_the_pipeline() {
    let (tx, rx) = mpsc::channel();
    let mut pipeline = Pipeline::new(tx);
    let mut s = state();
    assert_eq!(pipeline.next_step(&mut s, false, IDLE_MS), Step::Stop);
    pipeline.start();
    assert!(pipeline.is_running());
    let idle = Step::Idle { clear: false, pause_ms: 200 };
    assert_eq!(pipeline.next_step(&mut s, false, IDLE_MS), idle);
    assert_eq!(pipeline.next_step(&mut s, true, IDLE_MS), Step::Look { pause_ms: 65 });
    s.is_active = true;
    assert_eq!(pipeline.next_step(&mut s, false, IDLE_MS), Step::Look { pause_ms: 65 });
    record_detections(&mut s, &[detection()], 7);
    assert_eq!(s.last_detections.len(), 1);
    assert_eq!(s.last_detection_time, Some(7));
    s.is_active = false;
    let clear = Step::Idle { clear: true, pause_ms: 200 };
    assert_eq!(pipeline.next_step(&mut s, false, IDLE_MS), clear);
    assert!(s.last_detections.is_empty());
    assert_eq!(s.detection_state, DetectionState::Sleep);
    assert_eq!(pipeline.next_step(&mut s, false, IDLE_MS), idle);
    assert!(pipeline.covers_updated(Vec::new()));
    assert!(matches!(rx.recv().unwrap(), CoreEvent::CoversUpdated(_)));
    pipeline.stop();
    assert!(!pipeline.is_running());
}

#[test]
fn what_the_detector_is_asked_for() {
    let r = detection_request(&state());
    assert_eq!(f32::from_bits(r.confidence_threshold.bits), 0.25);
    assert_eq!(f32::from_bits(r.nms_threshold.bits), 0.1);
    assert_eq!(r.target_classes, vec![1]);
    assert_eq!((r.network_width, r.network_height), (544, 320));
}

#[test]
fn covers_follow_the_settings() {
    let mut s = state();
    s.config.overlay.is_blur = false;
    s.config.overlay.is_solid_color = true;
    let frame = FrameData::new_bgr(4, 4, vec![0u8; 48]);
    let covers = covers_for_state(&s, &[detection()], &frame);
    assert_eq!(covers.len(), 1);
    assert_eq!(covers[0].resolved_color, Some(ColorRgb::new(0, 0, 255)));
    record_covers(&mut s, &covers);
    assert_eq!(s.covers.len(), 1);
    assert_eq!(s.covers[0].screen_rect, ScreenRect::new(1, 1, 2, 2));
}

#[test]
fn choices_at_the_start() {
    assert_eq!(choose_detector(true, true), DetectorChoice::Mock);
    assert_eq!(choose_detector(false, true), DetectorChoice::Model);
    assert_eq!(choose_detector(false, false), DetectorChoice::Mock);
    assert!(shows_covers(&OverlayCapability::Supported));
    assert!(!shows_covers(&OverlayCapability::Unsupported("x".to_string())));
    let config = overlay_config(&get_outputs(&None));
    assert_eq!((config.width, config.height), (1920, 1200));
    assert_eq!(config.output_name.as_deref(), Some("DP-1"));
    let none = overlay_config(&Vec::new());
    assert_eq!((none.width, none.height), (1920, 1200));
    assert_eq!(none.output_name, None);
    let json = r#"[{"name":"A","width":1280,"height":1024}]"#;
    let other = overlay_config(&get_outputs(&Some(json.to_string())));
    assert_eq!((other.width, other.height), (1280, 1024));
}

#[test]
fn the_pace_of_the_program() {
    let mut s = state();
    let mut scheduler = Scheduler::new();
    assert_eq!(scheduler.next_interval(&s), None);
    scheduler.start();
    assert_eq!(scheduler.next_interval(&s), Some(1000));
    s.is_active = true;
    assert_eq!(scheduler.next_interval(&s), Some(65));
    scheduler.stop();
    assert_eq!(scheduler.next_interval(&s), None);
}

#[test]
fn commands_change_the_state() {
    let mut s = state();
    assert_eq!(handle_command(UiCommand::Activate, &mut s), Effect::Nothing);
    assert!(s.is_active);
    handle_command(UiCommand::Deactivate, &mut s);
    assert!(!s.is_active);
    handle_command(UiCommand::ToggleActivation, &mut s);
    handle_command(UiCommand::ToggleActivation, &mut s);
    assert!(!s.is_active);
    handle_command(UiCommand::Activate, &mut s);
    let mut other = PordaConfig::default();
    other.detection.accuracy = 77;
    handle_command(UiCommand::ApplySettings(other.clone()), &mut s);
    assert_eq!(s.config.detection.accuracy, 77);
    assert!(!s.is_active);
    handle_command(UiCommand::RestoreDefaults, &mut s);
    assert_eq!(s.config.detection.accuracy, 25);
    handle_command(UiCommand::LoadSettings(other), &mut s);
    assert_eq!(s.config.detection.accuracy, 77);
    assert_eq!(handle_command(UiCommand::SaveSettings, &mut s), Effect::Save);
    assert_eq!(handle_command(UiCommand::TakeScreenshot, &mut s), Effect::Screenshot);
    assert_eq!(handle_command(UiCommand::Terminate, &mut s), Effect::Quit);
    assert_eq!(handle_command(UiCommand::RefreshHotkeys, &mut s), Effect::Nothing);
    assert_eq!(handle_command(UiCommand::ConfigureGlobalShortcut, &mut s), Effect::Nothing);
}

#[test]
fn events_reach_the_window() {
    let mut ui = UiState::default();
    assert!(handle_event(&CoreEvent::DetectionStateChange(DetectionState::Active), &mut ui));
    assert_eq!(ui.detection_state, "Active");
    assert!(handle_event(&CoreEvent::CpuUsageUpdate(single(12.5)), &mut ui));
    assert_eq!(ui.cpu_usage, single(12.5));
    assert!(handle_event(&CoreEvent::ConfigSaved, &mut ui));
    assert!(handle_event(&CoreEvent::Error("x".to_string()), &mut ui));
    assert!(!handle_event(&CoreEvent::Terminated, &mut ui));
}

#[test]
fn actions_of_the_tray() {
    assert!(matches!(handle_tray_action(&TrayAction::Show), TrayEffect::ShowWindow));
    assert!(matches!(handle_tray_action(&TrayAction::Exit), TrayEffect::Exit));
    assert!(matches!(
        handle_tray_action(&TrayAction::ToggleDetection),
        TrayEffect::Send(UiCommand::ToggleActivation)
    ));
}

#[test]
fn event_channel_blocking_wakes_on_terminated() {
    let (tx, rx) = mpsc::channel::<CoreEvent>();
    assert!(tx.send(CoreEvent::Terminated).is_ok());
    assert!(matches!(rx.recv(), Ok(CoreEvent::Terminated)));
}

#[test]
fn cmd_channel_blocking_wakes_on_terminate() {
    let (tx, rx) = mpsc::channel::<UiCommand>();
    assert!(tx.send(UiCommand::Terminate).is_ok());
    assert!(matches!(rx.recv(), Ok(UiCommand::Terminate)));
}

#[test]
fn tray_channel_blocking_wakes_on_show() {
    let (tx, rx) = mpsc::channel::<TrayAction>();
    assert!(tx.send(TrayAction::Show).is_ok());
    assert!(matches!(rx.recv(), Ok(TrayAction::Show)));
}

#[test]
fn channel_sender_clone_keeps_alive_and_drop_disconnects() {
    let (tx, rx) = mpsc::channel::<UiCommand>();
    let tx_clone = tx.clone();
    drop(tx);
    assert!(
        matches!(rx.try_recv(), Err(mpsc::TryRecvError::Empty)),
        "should still be Empty while clone alive"
    );
    drop(tx_clone);
    assert!(
        matches!(rx.try_recv(), Err(mpsc::TryRecvError::Disconnected)),
        "should be Disconnected after all senders dropped"
    );
    let (tx2, rx2) = mpsc::channel::<UiCommand>();
    let tx2_clone = tx2.clone();
    drop(tx2);
    drop(tx2_clone);
    assert!(rx2.recv().is_err(), "should disconnect after all senders dropped");
}

#[test]
fn what_follows_a_look_at_the_screen() {
    let frame = FrameData::new_bgr(400, 400, vec![9u8; 400 * 400 * 3]);
    let mut s = state();
    s.is_active = true;
    assert!(looked(&mut s, None, &frame, 5).is_none());
    assert!(s.last_detections.is_empty());
    assert_eq!(s.last_detection_time, None);
    let found = [detection()];
    let expected = covers_for_state(&s, &found, &frame);
    let covers = looked(&mut s, Some(&found), &frame, 7).unwrap();
    assert_eq!(covers.len(), 1);
    assert_eq!(covers[0].screen_rect, expected[0].screen_rect);
    assert_eq!(covers[0].resolved_color, expected[0].resolved_color);
    assert_eq!(s.last_detections, found);
    assert_eq!(s.last_detection_time, Some(7));
    assert_eq!(s.detection_state, DetectionState::Active);
    assert!(s.covers.is_empty());
    assert!(looked(&mut s, None, &frame, 9).is_none());
    assert_eq!(s.last_detections, found);
    assert_eq!(looked(&mut s, Some(&[]), &frame, 9).unwrap().len(), 0);
    assert_eq!(s.last_detection_time, Some(7));
}

#[test]
fn where_pictures_of_the_screen_are_put() {
    assert_eq!(screenshot_path(b"/d", 1700000000), b"/d/screenshot_1700000000.jpg");
    assert_eq!(screenshot_path(b"/d/", 0), b"/d/screenshot_0.jpg");
}

#[test]
fn where_settings_lie() {
    let at_home = Some(&b"/home/u"[..]);
    assert_eq!(config_path_in(at_home), b"/home/u/PordaAi/settings.json");
    assert_eq!(config_path_in(None), b"PordaAi/settings.json");
    let dirs_at_home = directories_in(at_home);
    assert_eq!(dirs_at_home.len(), 3);
    assert_eq!(dirs_at_home[0], b"/home/u/PordaAi");
    assert_eq!(dirs_at_home[1], b"/home/u/PordaAi/Dataset");
    assert_eq!(dirs_at_home[2], b"/home/u/PordaAi/Extarnal-Model");
    let home = dirs::home_dir().map(|p| p.into_os_string().into_encoded_bytes());
    let home = home.as_deref();
    assert_eq!(app_data_dir(), app_data_dir_in(home));
    assert_eq!(config_path(), config_path_in(home));
    assert_eq!(dataset_dir(), directories_in(home)[1]);
    assert_eq!(external_model_dir(), directories_in(home)[2]);
    assert_ne!(app_data_dir_in(at_home), app_data_dir_in(None));
}

#[test]
fn paths_that_are_no_text_are_kept() {
    let home = Some(&[b'/', 0xff, b'u'][..]);
    assert_eq!(app_data_dir_in(home), b"/\xffu/PordaAi");
    assert_eq!(config_path_in(home), b"/\xffu/PordaAi/settings.json");
}

#[test]
fn joining_paths() {
    assert_eq!(join(b"", b"a"), b"a");
    assert_eq!(join(b"a", b"b"), b"a/b");
    assert_eq!(join(b"a/", b"b"), b"a/b");
    assert_eq!(join(b"a", b"/b"), b"/b");
    assert_eq!(join(b"a", b""), b"a/");
    assert_eq!(from_text("\u{e9}"), vec![0xc3, 0xa9]);
    for (dir, name) in [("", "a"), ("a", "b"), ("a/", "b"), ("a", "/b"), ("a", ""), ("/", "x/y")] {
        let expected = std::path::Path::new(dir).join(name);
        let expected = expected.into_os_string().into_encoded_bytes();
        assert_eq!(join(dir.as_bytes(), name.as_bytes()), expected);
    }
}

#[test]
fn settings_to_start_with() {
    assert_eq!(initial_config(None).detection.accuracy, 25);
    let mut c = PordaConfig::default();
    c.detection.accuracy = 3;
    assert_eq!(initial_config(Some(c)).detection.accuracy, 3);
    let d = PordaConfig::default();
    assert_eq!(d.hotkeys.toggle_key, "F2");
    assert_eq!(d.windows.always_skip_windows.len(), 9);
    assert!(d.startup.auto_startup);
}

#[test]
fn covers_are_kept_apart_from_their_source() {
    let mut s = state();
    let covers = vec![CoverRect::new_solid(ScreenRect::new(0, 0, 1, 1), ColorRgb::new(1, 2, 3))];
    record_covers(&mut s, &covers);
    drop(covers);
    assert_eq!(s.covers[0].resolved_color, Some(ColorRgb::new(1, 2, 3)));
}

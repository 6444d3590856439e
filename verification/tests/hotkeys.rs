use std::sync::mpsc;

use porda::platform::hotkey::{hotkey_action_to_command_name, HotkeyManager};
use porda::platform::hotkeys::{
    check_configure_version, check_query_version, check_session_version,
    check_supported_environment, fatal_configure_error, format_trigger_display, is_wayland,
    means_cancelled, means_unavailable, own_trigger, LinuxHotkeyManager, PortalFault, Query,
    Registration,
};
use porda::platform::portal::{Conversation, Phase, Purpose, Reply, Request};
use porda::platform::registry::{HotkeyAction, HotkeyRegistry};
use porda::platform::shortcut::{normalize_shortcut, parse_shortcut, HotkeyError};

fn mgr() -> (LinuxHotkeyManager, mpsc::Receiver<HotkeyAction>) {
    let (tx, rx) = mpsc::channel();
    let m = LinuxHotkeyManager::new_for_test(tx);
    (m, rx)
}

fn portal_mgr() -> (LinuxHotkeyManager, mpsc::Receiver<HotkeyAction>) {
    let (tx, rx) = mpsc::channel();
    (LinuxHotkeyManager::new(tx, true, true), rx)
}

fn pairs(list: &[(&str, &str)]) -> Vec<(String, String)> {
    list.iter().map(|(a, b)| (a.to_string(), b.to_string())).collect()
}

#[test]
fn normalize_valid() {
    assert_eq!(normalize_shortcut("F2").unwrap(), "F2");
    assert_eq!(normalize_shortcut("f2").unwrap(), "F2");
    assert_eq!(normalize_shortcut("  F2  ").unwrap(), "F2");
    assert_eq!(normalize_shortcut("ctrl+f2").unwrap(), "Ctrl+F2");
    assert_eq!(normalize_shortcut("Ctrl+Shift+F1").unwrap(), "Ctrl+Shift+F1");
    assert_eq!(normalize_shortcut("shift+ctrl+f1").unwrap(), "Ctrl+Shift+F1");
    assert_eq!(normalize_shortcut("meta+f2").unwrap(), "Meta+F2");
    assert_eq!(normalize_shortcut("super+f2").unwrap(), "Meta+F2");
    assert_eq!(normalize_shortcut("Alt+F1").unwrap(), "Alt+F1");
    assert_eq!(normalize_shortcut("a").unwrap(), "A");
}

#[test]
fn normalize_invalid() {
    assert!(matches!(normalize_shortcut("").unwrap_err(), HotkeyError::EmptyShortcut));
    assert!(matches!(normalize_shortcut("   ").unwrap_err(), HotkeyError::EmptyShortcut));
    assert!(normalize_shortcut("Ctrl+").is_err());
    assert!(normalize_shortcut("Ctrl+UnknownKey").is_err());
    assert!(normalize_shortcut("Foo+F1").is_err());
    assert!(normalize_shortcut("Ctrl+Ctrl+F1").is_err());
}

#[test]
fn parse_shortcut_aliases() {
    assert_eq!(parse_shortcut("F1").unwrap(), "F1");
    assert_eq!(parse_shortcut("Print").unwrap(), "Print");
    assert_eq!(parse_shortcut("ctrl+print").unwrap(), "Ctrl+Print");
}

#[test]
fn action_id_mapping() {
    assert_eq!(HotkeyAction::ToggleDetection.id(), "porda_toggle_v2");
    assert_eq!(HotkeyAction::from_id("toggle"), Some(HotkeyAction::ToggleDetection));
    assert_eq!(HotkeyAction::from_id("porda_toggle"), Some(HotkeyAction::ToggleDetection));
    assert_eq!(HotkeyAction::from_id("porda_toggle_v2"), Some(HotkeyAction::ToggleDetection));
    assert_eq!(HotkeyAction::from_id("unknown"), None);
    assert_eq!(HotkeyAction::from_id("screenshot"), None);
    assert_eq!(HotkeyAction::from_id("porda_screenshot"), None);
}

#[test]
fn registry_register_and_duplicate() {
    let (mut m, _rx) = mgr();
    assert!(m.register("Meta+Shift+P", HotkeyAction::ToggleDetection).is_ok());
    assert_eq!(m.registered_count(), 1);
    assert!(m.register("Meta+Shift+P", HotkeyAction::ToggleDetection).is_ok());
    assert_eq!(m.registered_count(), 1);
    assert!(m.register("meta+shift+p", HotkeyAction::ToggleDetection).is_ok());
    assert_eq!(m.registered_count(), 1);
}

#[test]
fn registry_unregister_all() {
    let (mut m, _rx) = mgr();
    m.register("Meta+Shift+P", HotkeyAction::ToggleDetection).unwrap();
    assert_eq!(m.registered_count(), 1);
    m.unregister_all().unwrap();
    assert_eq!(m.registered_count(), 0);
    m.unregister_all().unwrap();
    assert_eq!(m.registered_count(), 0);
}

#[test]
fn refresh_idempotent_no_duplicates() {
    let (mut m, _rx) = mgr();
    m.refresh("Meta+Shift+P").unwrap();
    assert_eq!(m.registered_count(), 1);
    assert!(m.is_registered("Meta+Shift+P"));
    m.refresh("Meta+Shift+P").unwrap();
    assert_eq!(m.registered_count(), 1);
    m.refresh("Meta+Shift+P").unwrap();
    m.refresh("Meta+Shift+P").unwrap();
    assert_eq!(m.registered_count(), 1);
}

#[test]
fn refresh_changes_shortcut() {
    let (mut m, _rx) = mgr();
    m.refresh("Meta+Shift+P").unwrap();
    assert!(m.is_registered("Meta+Shift+P"));
    m.refresh("Meta+Shift+Q").unwrap();
    assert!(!m.is_registered("Meta+Shift+P"));
    assert!(m.is_registered("Meta+Shift+Q"));
    assert_eq!(m.registered_count(), 1);
}

#[test]
fn refresh_invalid_shortcut_error() {
    let (mut m, _rx) = mgr();
    let err = m.refresh("").unwrap_err();
    assert!(err.contains("empty") || err.contains("invalid"));
    assert_eq!(m.registered_count(), 0);
}

#[test]
fn shutdown_is_idempotent() {
    let (mut m, _rx) = mgr();
    m.register("Meta+Shift+P", HotkeyAction::ToggleDetection).unwrap();
    m.unregister_all().unwrap();
    m.unregister_all().unwrap();
    assert_eq!(m.registered_count(), 0);
}

#[test]
fn invalid_shortcut_does_not_register() {
    let (mut m, _rx) = mgr();
    assert!(m.register("", HotkeyAction::ToggleDetection).is_err());
    assert_eq!(m.registered_count(), 0);
    assert!(m.register("Ctrl+Nope", HotkeyAction::ToggleDetection).is_err());
    assert_eq!(m.registered_count(), 0);
}

#[test]
fn portal_disabled_in_tests() {
    let (m, _rx) = mgr();
    assert!(!m.enable_portal);
}

#[test]
fn command_integration_via_channel() {
    let (hk_tx, hk_rx) = mpsc::channel::<HotkeyAction>();
    let (cmd_tx, cmd_rx) = mpsc::channel::<String>();
    hk_tx.send(HotkeyAction::ToggleDetection).unwrap();
    let action = hk_rx.recv().unwrap();
    cmd_tx.send(hotkey_action_to_command_name(action).to_string()).unwrap();
    assert_eq!(cmd_rx.recv().unwrap(), "ToggleActivation");
}

#[test]
fn registration_failure_does_not_panic() {
    let (mut m, _rx) = mgr();
    let r = m.register("", HotkeyAction::ToggleDetection);
    assert!(r.is_err());
    let r = m.register("Ctrl+BadKey", HotkeyAction::ToggleDetection);
    assert!(r.is_err());
    m.register("Meta+Shift+P", HotkeyAction::ToggleDetection).unwrap();
    let r = m.register("Meta+Shift+P", HotkeyAction::ToggleDetection);
    assert!(r.is_ok());
    assert_eq!(m.registered_count(), 1);
    m.unregister_all().unwrap();
    m.unregister_all().unwrap();
}

#[test]
fn unsupported_environment_detection() {
    let err = check_supported_environment(&Some("x11".to_string()), false).unwrap_err();
    assert!(err.message().contains("Wayland"), "{} should mention Wayland", err.message());
    assert!(check_supported_environment(&Some("wayland".to_string()), true).is_ok());
}

#[test]
fn refresh_atomic_no_partial_on_failure() {
    let (mut m, _rx) = mgr();
    m.refresh("Meta+Shift+P").unwrap();
    assert_eq!(m.registered_count(), 1);
    let err = m.refresh("").unwrap_err();
    assert!(err.contains("empty") || err.contains("invalid"));
    assert_eq!(m.registered_count(), 0);
    m.refresh("Meta+Shift+Q").unwrap();
    assert_eq!(m.registered_count(), 1);
    assert!(m.is_registered("Meta+Shift+Q"));
}

#[test]
fn default_shortcut_is_valid() {
    assert_eq!(normalize_shortcut("Meta+Shift+P").unwrap(), "Shift+Meta+P");
    assert_eq!(normalize_shortcut("Shift+Meta+P").unwrap(), "Shift+Meta+P");
    let (mut m, _rx) = mgr();
    m.register("Meta+Shift+P", HotkeyAction::ToggleDetection).unwrap();
    assert_eq!(m.registered_count(), 1);
    assert!(m.is_registered("Meta+Shift+P"));
    assert!(m.is_registered("Shift+Meta+P"));
}

#[test]
fn manager_register_and_refresh() {
    let mut m = HotkeyManager::new();
    m.register("Meta+Shift+P", HotkeyAction::ToggleDetection).unwrap();
    assert_eq!(m.count(), 1);
    m.refresh("Meta+Shift+Q").unwrap();
    assert_eq!(m.count(), 1);
    assert!(m.is_registered("Meta+Shift+Q"));
    assert!(!m.is_registered("Meta+Shift+P"));
}

#[test]
fn manager_duplicate_prevention() {
    let mut m = HotkeyManager::new();
    m.register("Meta+Shift+P", HotkeyAction::ToggleDetection).unwrap();
    assert!(m.register("Meta+Shift+P", HotkeyAction::ToggleDetection).is_ok());
    assert_eq!(m.count(), 1);
    assert!(m.is_registered("Meta+Shift+P"));
}

#[test]
fn manager_refresh_idempotent() {
    let mut m = HotkeyManager::new();
    m.refresh("Meta+Shift+P").unwrap();
    m.refresh("Meta+Shift+P").unwrap();
    m.refresh("Meta+Shift+P").unwrap();
    assert_eq!(m.count(), 1);
}

#[test]
fn hotkey_action_to_command_mapping() {
    assert_eq!(
        hotkey_action_to_command_name(HotkeyAction::ToggleDetection),
        "ToggleActivation"
    );
}

#[test]
fn manager_keeps_several_shortcuts_and_survives_a_bad_refresh() {
    let mut m = HotkeyManager::default();
    m.register("F1", HotkeyAction::ToggleDetection).unwrap();
    m.register("F2", HotkeyAction::ToggleDetection).unwrap();
    assert_eq!(m.count(), 2);
    assert_eq!(m.refresh("").unwrap_err(), "shortcut is empty");
    assert_eq!(m.count(), 2);
    m.unregister_all().unwrap();
    assert_eq!(m.count(), 0);
}

#[test]
fn normalizing_twice_changes_nothing() {
    for s in ["super + shift+ p", "WIN+alt+CONTROL+pageup", "f35", "0", "meta+return"] {
        let once = normalize_shortcut(s).unwrap();
        assert_eq!(normalize_shortcut(&once).unwrap(), once);
    }
    assert_eq!(normalize_shortcut("WIN+alt+CONTROL+pageup").unwrap(), "Ctrl+Alt+Meta+PageUp");
}

#[test]
fn the_order_of_modifiers_does_not_matter() {
    let orders = ["Shift+Ctrl+Meta+P", "Meta+Shift+Ctrl+P", "Ctrl+Meta+Shift+P"];
    for s in orders {
        assert_eq!(normalize_shortcut(s), Ok("Ctrl+Shift+Meta+P".to_string()));
    }
    assert_eq!(normalize_shortcut(" + "), Err(HotkeyError::EmptyShortcut));
}

#[test]
fn messages_of_bad_shortcuts() {
    let text = |s: &str| normalize_shortcut(s).unwrap_err().message();
    assert_eq!(text("+"), "shortcut is empty");
    assert_eq!(text("Ctrl+"), "invalid shortcut: unknown key 'Ctrl'");
    assert_eq!(text("Foo+F1"), "invalid shortcut: unknown modifier 'Foo'");
    assert_eq!(text("Ctrl+control+F1"), "invalid shortcut: duplicate modifier 'control'");
    assert_eq!(text("F36"), "invalid shortcut: unknown key 'F36'");
    assert_eq!(text("ü"), "invalid shortcut: unknown key 'ü'");
}

#[test]
fn messages_of_hotkey_errors() {
    let s = || "x".to_string();
    assert_eq!(HotkeyError::EmptyShortcut.message(), "shortcut is empty");
    assert_eq!(
        HotkeyError::AlreadyRegistered(s()).message(),
        "shortcut already registered: x"
    );
    assert_eq!(
        HotkeyError::PortalUnavailable(s()).message(),
        "global shortcuts unavailable: x"
    );
    assert_eq!(HotkeyError::SessionFailed(s()).message(), "session failed: x");
    assert_eq!(HotkeyError::BindFailed(s()).message(), "bind failed: x");
    assert_eq!(HotkeyError::NotRegistered.message(), "no hotkeys registered");
}

#[test]
fn a_registry_replaces_the_shortcut_of_an_action() {
    let mut r = HotkeyRegistry::new();
    assert_eq!(r.register("f1", HotkeyAction::ToggleDetection).unwrap(), "F1");
    assert_eq!(r.register("f2", HotkeyAction::ToggleDetection).unwrap(), "F2");
    assert_eq!(r.len(), 1);
    assert!(!r.contains("F1"));
    assert_eq!(r.entries(), vec![("F2".to_string(), HotkeyAction::ToggleDetection)]);
    r.forget(HotkeyAction::ToggleDetection);
    assert_eq!(r.len(), 0);
}

#[test]
fn sessions_on_wayland() {
    assert!(is_wayland(&Some("Wayland".to_string()), false));
    assert!(is_wayland(&None, true));
    assert!(!is_wayland(&Some("x11".to_string()), false));
    assert!(!is_wayland(&None, false));
}

#[test]
fn triggers_are_shown_with_spaces() {
    assert_eq!(format_trigger_display("Meta+Shift+P"), "Meta + Shift + P");
    assert_eq!(format_trigger_display("  "), "Not configured");
    assert_eq!(format_trigger_display(" Ctrl + A "), "Ctrl + A");
}

#[test]
fn a_registration_with_the_portal_waits_for_its_session() {
    let (mut m, _rx) = portal_mgr();
    match m.register("Meta+Shift+P", HotkeyAction::ToggleDetection).unwrap() {
        Registration::Bind(entries) => {
            assert_eq!(
                entries,
                vec![("Shift+Meta+P".to_string(), HotkeyAction::ToggleDetection)]
            );
        },
        Registration::Done => panic!("should bind"),
    }
    m.session_started(HotkeyAction::ToggleDetection, Some(Ok(()))).unwrap();
    assert_eq!(m.registered_count(), 1);
    assert!(m.shutdown_portal());
    assert!(!m.shutdown_portal());
}

#[test]
fn a_failed_session_takes_the_registration_back() {
    let (mut m, _rx) = portal_mgr();
    m.register("F2", HotkeyAction::ToggleDetection).unwrap();
    let failed = Some(Err("portal unavailable".to_string()));
    let err = m.session_started(HotkeyAction::ToggleDetection, failed).unwrap_err();
    assert_eq!(err, "portal session/binding failed: portal unavailable");
    assert_eq!(m.registered_count(), 0);
    assert!(!m.is_portal_available());
    assert_eq!(m.current_shortcut_display(), "Global shortcuts unavailable");
    m.register("F2", HotkeyAction::ToggleDetection).unwrap();
    let err = m.session_started(HotkeyAction::ToggleDetection, None).unwrap_err();
    assert!(err.starts_with("portal thread dropped"));
    assert_eq!(m.registered_count(), 0);
    m.register("F2", HotkeyAction::ToggleDetection).unwrap();
    let err = m.session_not_spawned(HotkeyAction::ToggleDetection, "no".to_string());
    assert_eq!(err.unwrap_err(), "failed to spawn hotkey thread: no");
    assert_eq!(m.registered_count(), 0);
}

#[test]
fn without_wayland_nothing_is_registered() {
    let (tx, _rx) = mpsc::channel();
    let mut m = LinuxHotkeyManager::new(tx, true, false);
    let err = m.register("F2", HotkeyAction::ToggleDetection).unwrap_err();
    assert!(err.starts_with("unsupported environment: "));
    assert_eq!(m.registered_count(), 0);
    assert!(m.is_supported().is_err());
    assert_eq!(m.portal_status_text(), "Global shortcuts unavailable");
    assert!(m.query_portal_trigger().is_err());
    assert!(m.configure_shortcut().is_err());
}

#[test]
fn what_is_shown_follows_the_portal() {
    let (mut m, _rx) = portal_mgr();
    assert_eq!(m.current_shortcut_display(), "Not configured");
    assert_eq!(m.portal_status_text(), "Not configured");
    assert_eq!(m.query_finished(Ok(Some("Meta+P".to_string()))).unwrap(), "Meta + P");
    assert_eq!(m.current_shortcut_display(), "Meta + P");
    assert_eq!(m.portal_status_text(), "Shortcut managed by desktop environment");
    assert_eq!(m.query_finished(Err("Portal UNAVAILABLE".to_string())).unwrap_err(), "Portal UNAVAILABLE");
    assert_eq!(m.current_shortcut_display(), "Global shortcuts unavailable");
    assert_eq!(m.query_finished(Err("odd".to_string())).unwrap_err(), "odd");
    assert_eq!(m.current_shortcut_display(), "Meta + P");
    assert_eq!(m.portal_status_text(), "");
}

#[test]
fn a_disabled_portal_shows_what_is_registered() {
    let (mut m, _rx) = mgr();
    assert_eq!(m.current_shortcut_display(), "Not configured");
    m.register("Meta+Shift+P", HotkeyAction::ToggleDetection).unwrap();
    assert_eq!(m.current_shortcut_display(), "Shift + Meta + P");
    assert!(matches!(m.query_portal_trigger().unwrap(), Query::Known(t) if t == "Shift + Meta + P"));
    assert_eq!(m.configure_shortcut().unwrap_err(), "portal disabled (test mode)");
    assert_eq!(m.portal_status_text(), "");
}

#[test]
fn configuring_can_be_cancelled() {
    let (mut m, _rx) = portal_mgr();
    assert_eq!(m.configure_shortcut().unwrap_err(), "no hotkey registered to configure");
    m.register("F2", HotkeyAction::ToggleDetection).unwrap();
    m.query_finished(Ok(Some("F2".to_string()))).unwrap();
    let c = m.configure_shortcut().unwrap();
    assert_eq!(c.previous.as_deref(), Some("F2"));
    assert_eq!(m.configured(c.previous, Err("Dialog CANCELLED".to_string())).unwrap(), "F2");
    let old = Err("RequiresVersion(2, 1)".to_string());
    assert!(m.configured(None, old).is_err());
    assert!(m.configured(None, Err("strange".to_string())).is_err());
    assert_eq!(m.configured(None, Ok(Some("F3".to_string()))).unwrap(), "F3");
    assert_eq!(m.configured(None, Err("closed".to_string())).unwrap(), "Not configured");
}

#[test]
fn words_of_the_portal() {
    assert!(means_unavailable("portal unavailable"));
    assert!(means_unavailable("unsupported"));
    assert!(!means_unavailable("Unavailable"));
    assert!(means_cancelled("dismissed"));
    assert!(!means_cancelled("open"));
    assert!(fatal_configure_error("RequiresVersion"));
    assert!(!fatal_configure_error("requiresversion"));
    assert_eq!(check_query_version(0).unwrap_err().message(), "GlobalShortcuts portal not supported");
    assert!(check_query_version(1).is_ok());
    assert_eq!(
        check_session_version(0).unwrap_err().message(),
        "GlobalShortcuts portal not supported by current portal backend"
    );
    assert_eq!(
        check_configure_version(1).unwrap_err().message(),
        "GlobalShortcuts portal version 1 does not support ConfigureShortcuts (requires v2)"
    );
    assert!(check_configure_version(2).is_ok());
}

#[test]
fn our_trigger_in_a_list() {
    assert_eq!(own_trigger(&pairs(&[("other", "F1"), ("toggle", "F2")])).as_deref(), Some("F2"));
    assert_eq!(own_trigger(&pairs(&[("porda_toggle", ""), ("toggle", "F2")])), None);
    assert_eq!(own_trigger(&pairs(&[])), None);
}

#[test]
fn a_session_is_ready_only_after_every_step() {
    let (mut m, _rx) = portal_mgr();
    m.register("F2", HotkeyAction::ToggleDetection).unwrap();
    let mut c = Conversation::new(Purpose::Listen, true);
    assert!(matches!(c.reply(&mut m, Reply::Connected(1)), Request::CreateSession));
    assert!(matches!(c.reply(&mut m, Reply::Created), Request::Bind));
    let bound = pairs(&[("porda_toggle_v2", "Shift+Meta+P")]);
    assert!(matches!(c.reply(&mut m, Reply::Bound(bound)), Request::List));
    assert_eq!(m.current_shortcut_display(), "Shift + Meta + P");
    assert!(matches!(c.reply(&mut m, Reply::NotListed("x".to_string())), Request::Subscribe));
    assert!(matches!(c.reply(&mut m, Reply::Subscribed), Request::Ready));
    let pressed = Reply::Activated("porda_toggle_v2".to_string());
    assert!(matches!(
        c.reply(&mut m, pressed),
        Request::Forward(HotkeyAction::ToggleDetection)
    ));
    assert!(matches!(c.reply(&mut m, Reply::Activated("?".to_string())), Request::Wait));
    assert!(matches!(c.reply(&mut m, Reply::ShutDown), Request::End));
    assert_eq!(c.phase, Phase::Done);
}

#[test]
fn a_shortcut_without_a_trigger_is_not_bound() {
    let (mut m, _rx) = portal_mgr();
    let mut c = Conversation::new(Purpose::Listen, true);
    c.reply(&mut m, Reply::Connected(1));
    c.reply(&mut m, Reply::Created);
    let r = c.reply(&mut m, Reply::Bound(pairs(&[("porda_toggle_v2", "")])));
    match r {
        Request::Failed(fault) => {
            assert!(fault.message().starts_with("portal returned no trigger for porda_toggle_v2 "));
        },
        _ => panic!("should fail"),
    }
    let mut late = Conversation::new(Purpose::Listen, true);
    late.reply(&mut m, Reply::Connected(1));
    late.reply(&mut m, Reply::Created);
    assert!(matches!(
        late.reply(&mut m, Reply::BindTimedOut),
        Request::Failed(PortalFault::BindTimeout)
    ));
}

#[test]
fn a_query_reads_the_list() {
    let (mut m, _rx) = portal_mgr();
    let mut c = Conversation::new(Purpose::Query, false);
    c.reply(&mut m, Reply::Connected(1));
    assert!(matches!(c.reply(&mut m, Reply::Created), Request::List));
    let listed = Reply::Listed(pairs(&[("toggle", "F5")]));
    match c.reply(&mut m, listed) {
        Request::Found(t) => assert_eq!(t.as_deref(), Some("F5")),
        _ => panic!("should be found"),
    }
}

#[test]
fn configuring_goes_on_after_most_errors() {
    let (mut m, _rx) = portal_mgr();
    let mut c = Conversation::new(Purpose::Configure, true);
    assert!(matches!(
        Conversation::new(Purpose::Configure, true).reply(&mut m, Reply::Connected(1)),
        Request::Failed(PortalFault::TooOld(1))
    ));
    c.reply(&mut m, Reply::Connected(2));
    c.reply(&mut m, Reply::Created);
    assert!(matches!(c.reply(&mut m, Reply::Bound(Vec::new())), Request::Configure));
    assert!(matches!(c.reply(&mut m, Reply::NotConfigured("no".to_string())), Request::List));
    let r = c.reply(&mut m, Reply::NoListAnswer("gone".to_string()));
    match r {
        Request::Failed(fault) => assert_eq!(fault.message(), "ListShortcuts response: gone"),
        _ => panic!("should fail"),
    }
}

#[test]
fn messages_of_portal_faults() {
    let s = || "e".to_string();
    let cases = vec![
        (PortalFault::Runtime(s()), "tokio runtime failed: e"),
        (PortalFault::Connect(s()), "GlobalShortcuts portal unavailable: e"),
        (
            PortalFault::ConnectSession(s()),
            "GlobalShortcuts portal unavailable (xdg-desktop-portal-kde not running): e",
        ),
        (PortalFault::CreateSession(s()), "CreateSession failed: e"),
        (PortalFault::Bind(s()), "BindShortcuts failed: e"),
        (PortalFault::BindResponse(s()), "BindShortcuts response: e"),
        (PortalFault::BindResponseError(s()), "BindShortcuts response error: e"),
        (PortalFault::List(s()), "ListShortcuts failed: e"),
        (PortalFault::Receive(s()), "receive_activated failed: e"),
        (PortalFault::Configure(s()), "e"),
    ];
    for (fault, text) in cases {
        assert_eq!(fault.message(), text);
    }
}

#[test]
fn the_toggle_is_described() {
    assert_eq!(HotkeyAction::ToggleDetection.description(), "Toggle Detection");
}

#[test]
fn the_case_of_a_shortcut_does_not_matter() {
    let written = normalize_shortcut("Meta+Shift+P").unwrap();
    assert_eq!(normalize_shortcut("mETA+sHIFT+p").unwrap(), written);
    assert_eq!(normalize_shortcut(" META + SHIFT + P ").unwrap(), written);
    assert!(normalize_shortcut("hyper+p").is_err());
    assert!(normalize_shortcut("HYPER+P").is_err());
}

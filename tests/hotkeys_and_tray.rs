use dpui::error::CoreError;
use dpui::hotkey::{validate_hotkey_format, HotkeyRegistry};
use dpui::preset::Preset;
use dpui::tray::{handle_tray_menu_event, TrayAction};

fn preset(id: &str, hotkey: Option<&str>) -> Preset {
    Preset {
        id: id.to_string(),
        name: id.to_string(),
        config: String::new(),
        hotkey: hotkey.map(|h| h.to_string()),
        created_at: String::new(),
    }
}

#[test]
fn register_then_duplicate_is_refused() {
    let mut r = HotkeyRegistry::new();
    assert_eq!(r.is_hotkey_available("Cmd+Shift+1"), Ok(true));
    assert!(r.register_preset_hotkey("p1", "Cmd+Shift+1").is_ok());
    assert_eq!(r.is_hotkey_available("Cmd+Shift+1"), Ok(false));
    let again = r.register_preset_hotkey("p2", "Cmd+Shift+1");
    assert_eq!(again, Err(CoreError::HotkeyAlreadyRegistered("Cmd+Shift+1".to_string())));
    assert_eq!(r.preset_for_shortcut("Cmd+Shift+1").as_deref(), Some("p1"));
    let all = r.get_registered_hotkeys();
    assert_eq!(all.len(), 1);
    assert_eq!(all[0].description, "Apply preset with Cmd+Shift+1");
}

#[test]
fn unregister_frees_shortcut() {
    let mut r = HotkeyRegistry::new();
    r.register_preset_hotkey("p1", "Cmd+1").unwrap();
    r.register_preset_hotkey("p2", "Cmd+2").unwrap();
    assert_eq!(r.unregister_hotkey("Cmd+1"), Ok(true));
    assert_eq!(r.unregister_hotkey("Cmd+1"), Ok(false));
    assert_eq!(r.is_hotkey_available("Cmd+1"), Ok(true));
    assert_eq!(r.preset_for_shortcut("Cmd+1"), None);
    assert_eq!(r.preset_for_shortcut("Cmd+2").as_deref(), Some("p2"));
    r.unregister_all_hotkeys();
    assert!(r.get_registered_hotkeys().is_empty());
}

#[test]
fn plan_unregisters_stale_and_registers_new() {
    let mut r = HotkeyRegistry::new();
    r.register_preset_hotkey("p1", "Cmd+1").unwrap();
    r.register_preset_hotkey("p2", "Cmd+2").unwrap();
    let presets = vec![preset("p1", Some("Cmd+1")), preset("p2", Some("Cmd+9")), preset("p3", None)];
    let plan = r.plan_hotkeys(&presets);
    assert_eq!(plan.unregister, vec!["Cmd+2".to_string()]);
    assert_eq!(plan.register.len(), 1);
    assert_eq!(plan.register[0].preset_id, "p2");
    assert_eq!(plan.register[0].shortcut, "Cmd+9");
    assert_eq!(plan.register[0].description, "Apply preset with Cmd+9");
}

#[test]
fn plan_is_empty_when_in_line() {
    let mut r = HotkeyRegistry::new();
    r.register_preset_hotkey("p1", "Cmd+1").unwrap();
    let plan = r.plan_hotkeys(&vec![preset("p1", Some("Cmd+1"))]);
    assert!(plan.unregister.is_empty());
    assert!(plan.register.is_empty());
}

#[test]
fn tray_items_map_to_actions() {
    assert_eq!(handle_tray_menu_event("show_hide"), TrayAction::ToggleWindow);
    assert_eq!(handle_tray_menu_event("refresh"), TrayAction::RefreshDisplays);
    assert_eq!(handle_tray_menu_event("manage_presets"), TrayAction::ShowMainWindow);
    assert_eq!(handle_tray_menu_event("quit"), TrayAction::Quit);
    assert_eq!(handle_tray_menu_event("preset_abc-1"), TrayAction::ApplyPreset("abc-1".to_string()));
    assert_eq!(handle_tray_menu_event("preset_"), TrayAction::ApplyPreset(String::new()));
    assert_eq!(handle_tray_menu_event("other"), TrayAction::Unknown("other".to_string()));
}

#[test]
fn malformed_shortcuts_are_refused() {
    assert_eq!(validate_hotkey_format("Cmd+Shift+1"), Ok(()));
    assert_eq!(validate_hotkey_format("Ctrl+Alt+D"), Ok(()));
    assert_eq!(
        validate_hotkey_format("Cmd+Shift+"),
        Err(CoreError::HotkeyInvalidFormat("Cmd+Shift+".to_string()))
    );
    assert!(validate_hotkey_format("Ctrl+C+Shift").is_err());
    assert!(validate_hotkey_format("NotAKey").is_err());
    let mut r = HotkeyRegistry::new();
    assert_eq!(
        r.register_preset_hotkey("p1", "Cmd++"),
        Err(CoreError::HotkeyInvalidFormat("Cmd++".to_string()))
    );
    assert!(r.get_registered_hotkeys().is_empty());
    assert!(matches!(r.is_hotkey_available("Shift+"), Err(CoreError::HotkeyInvalidFormat(_))));
    assert!(matches!(r.unregister_hotkey("Shift+"), Err(CoreError::HotkeyInvalidFormat(_))));
}

#[test]
fn bind_takes_any_string_once() {
    let mut r = HotkeyRegistry::new();
    assert!(r.bind("p1", "anything").is_ok());
    assert!(!r.is_free("anything"));
    assert_eq!(
        r.bind("p2", "anything"),
        Err(CoreError::HotkeyAlreadyRegistered("anything".to_string()))
    );
    assert!(r.unbind("anything"));
    assert!(r.is_free("anything"));
}

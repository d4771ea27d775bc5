use gamereader::actions::{
    areas_hud_text, classify_action, fixed_hud_text, reader_command, reader_hud_text,
    region_switch_feedback, HotkeyAction, ReaderCommand,
};
use gamereader::hotkeys::{
    is_action_allowed, is_valid_hotkey, key_name_to_vk, normalize_sorted_exec, parse_hotkey,
    HotkeyDispatcher, HotkeyParseError, Modifiers,
};
use gamereader::region::ActiveRegion;

#[test]
fn test_parse_hotkey_single_key() {
    let parsed = parse_hotkey("home").unwrap();
    assert_eq!(parsed.vk_code, 0x24);
    assert_eq!(parsed.modifiers, Modifiers::default());
}

#[test]
fn test_parse_hotkey_with_modifier() {
    let parsed = parse_hotkey("alt+1").unwrap();
    assert_eq!(parsed.vk_code, 0x31);
    assert!(parsed.modifiers.alt);
}

#[test]
fn test_parse_hotkey_multiple_modifiers() {
    let parsed = parse_hotkey("ctrl+shift+z").unwrap();
    assert_eq!(parsed.vk_code, 0x5A);
    assert!(parsed.modifiers.ctrl);
    assert!(parsed.modifiers.shift);
}

#[test]
fn test_is_action_allowed() {
    assert!(is_action_allowed("toggle_reader", true));
    assert!(!is_action_allowed("volume_up", false));
    assert!(is_action_allowed("open_settings", false));
}

#[test]
fn test_key_name_to_vk() {
    assert_eq!(key_name_to_vk("a").unwrap(), 0x41);
    assert_eq!(key_name_to_vk("home").unwrap(), 0x24);
    assert_eq!(key_name_to_vk("f1").unwrap(), 0x70);
}

#[test]
fn parse_hotkey_errors() {
    assert_eq!(parse_hotkey("super+a"), Err(HotkeyParseError::UnknownModifier("super".to_string())));
    assert_eq!(parse_hotkey("ctrl+nokey"), Err(HotkeyParseError::UnknownKey("nokey".to_string())));
    // Parts are not trimmed by the key-event parser.
    assert!(parse_hotkey("ctrl + a").is_err());
    assert_eq!(parse_hotkey("Shift+F12").unwrap().vk_code, 0x7B);
    assert_eq!(key_name_to_vk("9").unwrap(), 0x39);
    assert_eq!(key_name_to_vk("'").unwrap(), 0xDE);
}

#[test]
fn preset_hotkey_normalization() {
    assert_eq!(normalize_sorted_exec("Shift + Ctrl + A").map(|v| v.into_iter().collect::<String>()), Some("ctrl+shift+a".to_string()));
    assert_eq!(normalize_sorted_exec("   "), None);
    assert!(is_valid_hotkey("alt+'"));
    assert!(!is_valid_hotkey("alt+tab"));
    assert!(!is_valid_hotkey("ctrl+esc"));
}

fn bindings(v: &[(&str, &str)]) -> Vec<(String, String)> {
    v.iter().map(|(a, k)| (a.to_string(), k.to_string())).collect()
}

const ALT: Modifiers = Modifiers { ctrl: false, alt: true, shift: false };
const NONE: Modifiers = Modifiers { ctrl: false, alt: false, shift: false };
const MS: u64 = 1_000_000;

#[test]
fn dispatcher_runs_bound_allowed_actions_once_per_press() {
    let mut d = HotkeyDispatcher::new(&bindings(&[("toggle_reader", "home"), ("volume_up", "page_up"), ("bad", "super+q")]));
    assert_eq!(d.bindings.len(), 2);
    // Reader off: volume_up is not allowed, toggle_reader is.
    assert_eq!(d.key_down(0x21, NONE, 0, 10_000), None);
    assert_eq!(d.key_down(0x24, NONE, 1 * MS, 10_001), Some("toggle_reader".to_string()));
    // Held key: blocked until released.
    assert_eq!(d.key_down(0x24, NONE, 600 * MS, 10_600), None);
    d.key_up();
    // Released, debounce passed, wall clock gap passed.
    d.set_reader_enabled(true);
    assert_eq!(d.key_down(0x21, NONE, 700 * MS, 10_700), Some("volume_up".to_string()));
    d.key_up();
    // Within the 250 ms debounce window.
    assert_eq!(d.key_down(0x21, NONE, 800 * MS, 10_900), None);
    // Unbound combination.
    assert_eq!(d.key_down(0x24, ALT, 2000 * MS, 20_000), None);
}

#[test]
fn dispatcher_releases_after_two_seconds_and_checks_wall_gap() {
    let mut d = HotkeyDispatcher::new(&bindings(&[("toggle_reader", "home")]));
    assert_eq!(d.key_down(0x24, NONE, 0, 5_000), Some("toggle_reader".to_string()));
    // No key-up arrives; after two seconds the press counts again.
    assert_eq!(d.key_down(0x24, NONE, 2_000 * MS, 7_000), Some("toggle_reader".to_string()));
    d.key_up();
    // Debounce passed but the wall clock moved only 200 ms: not dispatched.
    assert_eq!(d.key_down(0x24, NONE, 2_500 * MS, 7_200), None);
    assert_eq!(d.last_dispatch_ms, 7_200);
}

#[test]
fn action_classification() {
    assert_eq!(classify_action("toggle_reader"), HotkeyAction::ToggleReader);
    assert_eq!(classify_action("volume_down"), HotkeyAction::VolumeDown);
    assert_eq!(classify_action("debug_console"), HotkeyAction::DebugConsole);
    assert_eq!(classify_action("nope"), HotkeyAction::Unknown);
    assert_eq!(reader_command(HotkeyAction::ToggleReader, true), Some(ReaderCommand::Stop));
    assert_eq!(reader_command(HotkeyAction::ToggleReader, false), Some(ReaderCommand::Start));
    assert_eq!(reader_command(HotkeyAction::EnableReader, true), Some(ReaderCommand::Start));
    assert_eq!(reader_command(HotkeyAction::DisableReader, false), Some(ReaderCommand::Stop));
    assert_eq!(reader_command(HotkeyAction::VolumeUp, false), None);
    assert_eq!(reader_hud_text(true), "Uruchomiono lektora");
    assert_eq!(reader_hud_text(false), "Zatrzymano lektora");
    assert_eq!(region_switch_feedback(ActiveRegion::Monitor2), ("area2".to_string(), "Przełączono na region 2".to_string()));
    assert_eq!(areas_hud_text(false), "Ukryto obszar wykrywania");
    assert_eq!(fixed_hud_text(HotkeyAction::SkipNextLine), Some("Pominięto kwestię".to_string()));
    assert_eq!(fixed_hud_text(HotkeyAction::VolumeUp), None);
}

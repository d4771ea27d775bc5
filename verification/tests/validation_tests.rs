use gamereader::presets::default_key_bindings;
use gamereader::validation::{
    friendly_field, DirEntryProbe, PathKind, PathProbe, ValidationResult, Validator,
};

fn insert(kb: &mut Vec<(String, String)>, action: &str, key: &str) {
    for b in kb.iter_mut() {
        if b.0 == action {
            b.1 = key.to_string();
            return;
        }
    }
    kb.push((action.to_string(), key.to_string()));
}

#[test]
fn test_validation_result_default() {
    let result = ValidationResult::default();
    assert!(result.is_valid());
    assert!(result.first_error_message().is_none());
}

#[test]
fn test_first_error_message_format() {
    let mut result = ValidationResult::new();
    result.add_error("resolution_downscale".to_string(), "too big".to_string());
    result.add_error("capture_interval".to_string(), "too small".to_string());
    assert_eq!(result.first_error_message(), Some("resolution_downscale: too big".to_string()));
}

#[test]
fn test_normalize_hotkey_simple_key() {
    let result = Validator::normalize_hotkey("a");
    assert_eq!(result, Some("a".to_string()));
}

#[test]
fn test_normalize_hotkey_with_modifiers() {
    let result = Validator::normalize_hotkey("Ctrl+Alt+A");
    assert_eq!(result, Some("ctrl+alt+a".to_string()));
}

#[test]
fn test_normalize_hotkey_sorts_modifiers() {
    let result = Validator::normalize_hotkey("Shift+Ctrl+A");
    assert_eq!(result, Some("ctrl+shift+a".to_string()));

    let result = Validator::normalize_hotkey("Alt+Shift+Ctrl+B");
    assert_eq!(result, Some("ctrl+alt+shift+b".to_string()));
}

#[test]
fn test_normalize_hotkey_lowercase() {
    let result = Validator::normalize_hotkey("CTRL+ALT+DELETE");
    assert_eq!(result, Some("ctrl+alt+delete".to_string()));
}

#[test]
fn test_normalize_hotkey_empty() {
    let result = Validator::normalize_hotkey("");
    assert_eq!(result, None);
}

#[test]
fn test_invalid_resolution_string() {
    let result = Validator::validate_resolution("not-a-resolution");
    assert!(!result.is_valid());
    assert_eq!(result.errors[0].field, "resolution");
}

#[test]
fn test_valid_resolution_strings() {
    for res in vec!["1280x720", "1920x1080", "2560x1440", "3840x2160"] {
        let result = Validator::validate_resolution(res);
        assert!(result.is_valid(), "Resolution {} should be valid", res);
    }
}

#[test]
fn resolution_limits() {
    assert!(Validator::validate_resolution("16000x16000").is_valid());
    assert!(!Validator::validate_resolution("16001x100").is_valid());
    assert!(!Validator::validate_resolution("0x100").is_valid());
    assert!(Validator::validate_resolution(" 3440 X 1440 ").is_valid());
}

#[test]
fn capture_mode_must_be_window() {
    assert!(Validator::validate_capture_config("window").is_valid());
    let r = Validator::validate_capture_config("screen");
    assert_eq!(r.errors.len(), 1);
    assert_eq!(r.errors[0].field, "capture_mode");
    assert_eq!(r.errors[0].message, "Nieprawidłowy tryb przechwytywania 'screen'. Tylko 'window' jest wspierany.");
}

#[test]
fn test_validate_hotkeys_no_duplicates() {
    let kb = default_key_bindings();
    let result = Validator::validate_hotkeys(&kb);
    assert!(result.is_valid(), "Default hotkeys should not have duplicates");
}

#[test]
fn test_validate_hotkeys_with_duplicate() {
    let mut kb = default_key_bindings();
    insert(&mut kb, "toggle_reader", "home");
    insert(&mut kb, "test_sound", "home");

    let result = Validator::validate_hotkeys(&kb);
    assert!(!result.is_valid());
    assert!(result.errors.len() >= 1);
    assert!(result.errors.iter().any(|e| e.message.contains("already assigned")));
}

#[test]
fn test_validate_hotkeys_reserved_alt_tab() {
    let mut kb = default_key_bindings();
    insert(&mut kb, "toggle_reader", "Alt+Tab");

    let result = Validator::validate_hotkeys(&kb);
    assert!(!result.is_valid());
    assert!(result.errors.iter().any(|e| e.field.contains("toggle_reader") && e.message.contains("reserved")));
}

#[test]
fn test_validate_hotkeys_reserved_alt_f4() {
    let mut kb = default_key_bindings();
    insert(&mut kb, "interrupt_audio", "Alt+F4");

    let result = Validator::validate_hotkeys(&kb);
    assert!(!result.is_valid());
    assert!(result.errors.iter().any(|e| e.message.contains("reserved")));
}

#[test]
fn test_validate_hotkeys_reserved_ctrl_alt_del() {
    let mut kb = default_key_bindings();
    insert(&mut kb, "open_settings", "Ctrl+Alt+Del");

    let result = Validator::validate_hotkeys(&kb);
    assert!(!result.is_valid());
    assert!(result.errors.iter().any(|e| e.message.contains("reserved")));
}

#[test]
fn test_validate_hotkeys_reserved_ctrl_shift_esc() {
    let mut kb = default_key_bindings();
    insert(&mut kb, "debug_console", "Ctrl+Shift+Esc");

    let result = Validator::validate_hotkeys(&kb);
    assert!(!result.is_valid());
    assert!(result.errors.iter().any(|e| e.message.contains("reserved")));
}

#[test]
fn test_validate_hotkeys_invalid_modifier() {
    let mut kb = default_key_bindings();
    insert(&mut kb, "toggle_reader", "Super+A");

    let result = Validator::validate_hotkeys(&kb);
    assert!(!result.is_valid());
    assert!(result
        .errors
        .iter()
        .any(|e| e.message.contains("Invalid hotkey format") || e.message.contains("invalid modifier")));
}

#[test]
fn test_validate_hotkeys_invalid_key() {
    let mut kb = default_key_bindings();
    insert(&mut kb, "toggle_reader", "Ctrl+InvalidKey");

    let result = Validator::validate_hotkeys(&kb);
    assert!(!result.is_valid());
    assert!(result.errors.iter().any(|e| e.message.contains("not allowed")));
}

#[test]
fn test_validate_hotkeys_valid_modifiers() {
    let mut kb = Vec::new();
    insert(&mut kb, "action1", "Ctrl+A");
    insert(&mut kb, "action2", "Alt+B");
    insert(&mut kb, "action3", "Shift+C");
    insert(&mut kb, "action4", "Ctrl+Alt+D");

    let result = Validator::validate_hotkeys(&kb);
    assert!(result.is_valid());
}

#[test]
fn test_validate_hotkeys_valid_function_keys() {
    let mut kb = Vec::new();
    insert(&mut kb, "action1", "F1");
    insert(&mut kb, "action2", "f5");
    insert(&mut kb, "action3", "F12");

    let result = Validator::validate_hotkeys(&kb);
    assert!(result.is_valid());
}

#[test]
fn test_validate_hotkeys_valid_special_keys() {
    let mut kb = Vec::new();
    insert(&mut kb, "action1", "home");
    insert(&mut kb, "action2", "end");
    insert(&mut kb, "action3", "insert");
    insert(&mut kb, "action4", "delete");
    insert(&mut kb, "action5", "page_up");
    insert(&mut kb, "action6", "page_down");

    let result = Validator::validate_hotkeys(&kb);
    assert!(result.is_valid());
}

#[test]
fn test_validate_hotkeys_skips_empty() {
    let mut kb = Vec::new();
    insert(&mut kb, "action1", "");
    insert(&mut kb, "action2", "home");

    let result = Validator::validate_hotkeys(&kb);
    assert!(result.is_valid(), "Expected no errors, got: {:?}", result.errors);
}

#[test]
fn test_validate_hotkeys_multiple_errors() {
    let mut kb = Vec::new();
    insert(&mut kb, "action1", "Alt+Tab");
    insert(&mut kb, "action2", "Super+A");
    insert(&mut kb, "action3", "home");
    insert(&mut kb, "action4", "home");

    let result = Validator::validate_hotkeys(&kb);
    assert!(!result.is_valid());
    assert!(result.errors.len() >= 2, "Expected at least 2 errors, got {}: {:?}", result.errors.len(), result.errors);
}

#[test]
fn test_validate_hotkeys_case_insensitive_duplicate_detection() {
    let mut kb = Vec::new();
    insert(&mut kb, "action1", "ctrl+a");
    insert(&mut kb, "action2", "Ctrl+A");

    let result = Validator::validate_hotkeys(&kb);
    assert!(!result.is_valid());
    assert!(result.errors.iter().any(|e| e.message.contains("already assigned")));
}

#[test]
fn test_validate_hotkeys_modifier_order_normalization() {
    let mut kb = Vec::new();
    insert(&mut kb, "action1", "Shift+Ctrl+A");
    insert(&mut kb, "action2", "Ctrl+Shift+A");

    let result = Validator::validate_hotkeys(&kb);
    assert!(!result.is_valid());
    assert!(result.errors.iter().any(|e| e.message.contains("already assigned")));
}

#[test]
fn duplicate_message_names_first_action() {
    let mut kb = Vec::new();
    insert(&mut kb, "first", "home");
    insert(&mut kb, "second", "HOME");
    let result = Validator::validate_hotkeys(&kb);
    assert_eq!(result.errors.len(), 1);
    assert_eq!(result.errors[0].message, "Hotkey 'home' is already assigned to action 'first'");
}

#[test]
fn friendly_labels() {
    assert_eq!(friendly_field("audio_dir"), "Folder audio");
    assert_eq!(friendly_field("resolution"), "Rozdzielczość");
}

// Paths: the file-system facts are given as probes.

fn probe(kind: PathKind, ext: Option<&str>) -> PathProbe {
    PathProbe { kind, extension: ext.map(|s| s.to_string()) }
}

fn entry(name: &str, ext: Option<&str>) -> DirEntryProbe {
    DirEntryProbe { file_name: name.to_string(), is_file: true, extension: ext.map(|s| s.to_string()) }
}

fn paths(
    audio_dir: &str,
    audio: PathProbe,
    entries: Option<Vec<DirEntryProbe>>,
    text_path: &str,
    text: PathProbe,
    names_path: &str,
    names: PathProbe,
    output2: bool,
    dynamic: bool,
) -> ValidationResult {
    Validator::validate_paths(audio_dir, &audio, &entries, text_path, &text, names_path, &names, output2, dynamic)
}

#[test]
fn test_empty_audio_dir() {
    let result = paths("", probe(PathKind::Missing, None), None, "t.txt", probe(PathKind::File, Some("txt")), "", probe(PathKind::Missing, None), false, false);
    assert!(!result.is_valid());
    assert!(result.errors.iter().any(|e| e.field == "audio_dir" && e.message.contains("cannot be empty")));
}

#[test]
fn test_nonexistent_audio_dir() {
    let result = paths("c:\\nonexistent\\audio\\dir", probe(PathKind::Missing, None), None, "dummy.txt", probe(PathKind::Missing, Some("txt")), "", probe(PathKind::Missing, None), false, false);
    assert!(!result.is_valid());
    assert!(result.errors.iter().any(|e| e.field == "audio_dir" && e.message.contains("does not exist")));
}

#[test]
fn test_empty_text_file_path() {
    let result = paths("a", probe(PathKind::Directory, None), Some(vec![entry("x.ogg", Some("ogg"))]), "", probe(PathKind::Missing, None), "", probe(PathKind::Missing, None), false, false);
    assert!(!result.is_valid());
    assert!(result.errors.iter().any(|e| e.field == "text_file_path" && e.message.contains("cannot be empty")));
}

#[test]
fn test_nonexistent_text_file() {
    let result = paths("c:\\dummy", probe(PathKind::Missing, None), None, "c:\\nonexistent\\text.txt", probe(PathKind::Missing, Some("txt")), "", probe(PathKind::Missing, None), false, false);
    assert!(!result.is_valid());
    assert!(result.errors.iter().any(|e| e.field == "text_file_path" && e.message.contains("does not exist")));
}

#[test]
fn test_text_file_wrong_extension() {
    let result = paths("tmp", probe(PathKind::Directory, None), Some(vec![]), "tmp/test_file.json", probe(PathKind::File, Some("json")), "", probe(PathKind::Missing, None), false, false);
    assert!(!result.is_valid());
    assert!(result.errors.iter().any(|e| e.field == "text_file_path" && e.message.contains(".txt extension")));
}

#[test]
fn test_names_file_not_required_when_enabled_inline_mode() {
    // Name removal on, no names file: the inline mode works without one, so
    // the path checks (which do not depend on that setting) report nothing
    // for it.
    let result = paths("c:\\dummy", probe(PathKind::Missing, None), None, "c:\\dummy.txt", probe(PathKind::Missing, Some("txt")), "", probe(PathKind::Missing, None), false, false);
    assert!(result.errors.iter().all(|e| e.field != "names_file_path"));
}

#[test]
fn test_names_file_not_required_when_disabled() {
    let result = paths("c:\\dummy", probe(PathKind::Missing, None), None, "c:\\dummy.txt", probe(PathKind::Missing, Some("txt")), "", probe(PathKind::Missing, None), false, false);
    assert!(result.errors.iter().all(|e| e.field != "names_file_path"));
}

#[test]
fn test_nonexistent_names_file() {
    let result = paths("c:\\dummy", probe(PathKind::Missing, None), None, "c:\\dummy.txt", probe(PathKind::Missing, Some("txt")), "c:\\nonexistent\\names.txt", probe(PathKind::Missing, Some("txt")), false, false);
    assert!(!result.is_valid());
    assert!(result.errors.iter().any(|e| e.field == "names_file_path" && e.message.contains("does not exist")));
}

#[test]
fn test_names_file_wrong_extension() {
    let result = paths("tmp", probe(PathKind::Directory, None), Some(vec![]), "c:\\dummy.txt", probe(PathKind::Missing, Some("txt")), "tmp/names.csv", probe(PathKind::File, Some("csv")), false, false);
    assert!(result.errors.iter().any(|e| e.field == "names_file_path" && e.message.contains(".txt extension")));
}

#[test]
fn test_output2_validation_when_required() {
    let result = paths("dir", probe(PathKind::Directory, None), Some(vec![entry("output1 (1).ogg", Some("ogg"))]), "c:\\dummy.txt", probe(PathKind::Missing, Some("txt")), "", probe(PathKind::Missing, None), true, false);
    assert!(!result.is_valid());
    assert!(result.errors.iter().any(|e| e.field == "audio_dir" && e.message.contains("output2")));
}

#[test]
fn test_output2_not_required_when_dynamic_speed_enabled() {
    let result = paths("dir", probe(PathKind::Directory, None), Some(vec![entry("output1 (1).ogg", Some("ogg"))]), "dir/t.txt", probe(PathKind::File, Some("txt")), "", probe(PathKind::Missing, None), true, true);
    assert!(result.errors.iter().all(|e| !e.message.contains("output2")));
}

#[test]
fn test_output2_not_required_when_output2_system_disabled() {
    let result = paths("dir", probe(PathKind::Directory, None), Some(vec![entry("output1 (1).ogg", Some("ogg"))]), "dir/t.txt", probe(PathKind::File, Some("txt")), "", probe(PathKind::Missing, None), false, false);
    assert!(result.errors.iter().all(|e| !e.message.contains("output2")));
}

#[test]
fn test_valid_audio_dir_with_supported_formats() {
    let result = paths("dir", probe(PathKind::Directory, None), Some(vec![entry("output1 (1).ogg", Some("ogg")), entry("output1 (2).MP3", Some("MP3"))]), "dir/t.txt", probe(PathKind::File, Some("txt")), "", probe(PathKind::Missing, None), false, false);
    assert!(result.is_valid(), "Expected no errors, got: {:?}", result.errors);
}

#[test]
fn test_audio_dir_with_no_supported_audio_files() {
    let result = paths("dir", probe(PathKind::Directory, None), Some(vec![entry("notes.txt", Some("txt"))]), "dir/notes.txt", probe(PathKind::File, Some("txt")), "", probe(PathKind::Missing, None), false, false);
    assert!(!result.is_valid());
    assert!(result.errors.iter().any(|e| e.field == "audio_dir" && e.message.contains("no files in supported formats")));
}

#[test]
fn test_complete_valid_configuration_with_paths() {
    let result = paths("dir", probe(PathKind::Directory, None), Some(vec![entry("output1 (1).ogg", Some("ogg"))]), "dir/t.txt", probe(PathKind::File, Some("txt")), "dir/names.txt", probe(PathKind::File, Some("txt")), false, false);
    assert!(result.is_valid(), "Expected no errors, got: {:?}", result.errors);
}

#[test]
fn test_audio_dir_is_file_not_directory() {
    let result = paths("file.txt", probe(PathKind::File, Some("txt")), None, "c:\\dummy.txt", probe(PathKind::Missing, Some("txt")), "", probe(PathKind::Missing, None), false, false);
    assert!(!result.is_valid());
    assert!(result.errors.iter().any(|e| e.field == "audio_dir" && e.message.contains("not a directory")));
}

#[test]
fn test_text_file_is_directory_not_file() {
    let result = paths("c:\\dummy", probe(PathKind::Missing, None), None, "somedir", probe(PathKind::Directory, None), "", probe(PathKind::Missing, None), false, false);
    assert!(!result.is_valid());
    assert!(result.errors.iter().any(|e| e.field == "text_file_path" && e.message.contains("not a file")));
}

#[test]
fn test_output2_files_present_validation_passes() {
    let result = paths("dir", probe(PathKind::Directory, None), Some(vec![entry("output1 (1).ogg", Some("ogg")), entry("output2 (1).ogg", Some("ogg"))]), "dir/t.txt", probe(PathKind::File, Some("txt")), "", probe(PathKind::Missing, None), true, false);
    assert!(result.is_valid(), "Expected no errors, got: {:?}", result.errors);
}

#[test]
fn unreadable_audio_dir() {
    let result = paths("dir", probe(PathKind::Directory, None), None, "dir/t.txt", probe(PathKind::File, Some("txt")), "", probe(PathKind::Missing, None), true, false);
    assert_eq!(result.errors.len(), 1);
    assert_eq!(result.errors[0].message, "Cannot read audio directory: dir");
}

#[test]
fn integer_range_messages() {
    assert_eq!(Validator::height_range_error(0), Some("Musi być w zakresie [1, 9999], a jest 0".to_string()));
    assert_eq!(Validator::height_range_error(-12), Some("Musi być w zakresie [1, 9999], a jest -12".to_string()));
    assert_eq!(Validator::height_range_error(10000), Some("Musi być w zakresie [1, 9999], a jest 10000".to_string()));
    assert_eq!(Validator::height_range_error(1), None);
    assert_eq!(Validator::height_range_error(9999), None);
    assert_eq!(Validator::height_order_error(150, 100), Some("Musi być mniejsze lub równe maks. wysokości (150 > 100)".to_string()));
    assert_eq!(Validator::height_order_error(100, 100), None);
    assert_eq!(Validator::audio_queue_size_error(5), Some("Musi być jedną z wartości [1, 2, 3], a jest 5".to_string()));
    assert_eq!(Validator::audio_queue_size_error(0), Some("Musi być jedną z wartości [1, 2, 3], a jest 0".to_string()));
    assert_eq!(Validator::audio_queue_size_error(2), None);
}

#[test]
fn reader_start_refused_while_running_or_invalid() {
    let mut result = gamereader::validation::ValidationResult::new();
    assert_eq!(gamereader::validation::reader_start_check(false, &result), Ok(()));
    assert_eq!(
        gamereader::validation::reader_start_check(true, &result),
        Err("Pipeline is already running".to_string())
    );
    result.add_error("audio_dir".to_string(), "missing".to_string());
    result.add_error("text_file_path".to_string(), "bad".to_string());
    assert_eq!(gamereader::validation::reader_start_check(false, &result), Err("audio_dir: missing".to_string()));
}

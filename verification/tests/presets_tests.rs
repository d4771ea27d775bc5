use gamereader::presets::{
    add_recent, default_key_bindings, remove_recent_path, sanitize_key_bindings, RecentPreset,
    MAX_RECENT_PRESETS,
};

fn entry(path: &str, name: &str, ts: i64) -> RecentPreset {
    RecentPreset { path: path.to_string(), name: name.to_string(), timestamp: ts }
}

#[test]
fn test_recent_presets() {
    let recent: Vec<RecentPreset> = Vec::new();
    assert_eq!(recent.len(), 0);

    let recent = add_recent(&recent, entry("/tmp/preset1.json", "Preset 1", 1));
    let recent = add_recent(&recent, entry("/tmp/preset2.json", "Preset 2", 2));

    assert_eq!(recent.len(), 2);
    assert_eq!(recent[0].name, "Preset 2");
    assert_eq!(recent[1].name, "Preset 1");
}

#[test]
fn test_recent_presets_max_limit() {
    let mut recent: Vec<RecentPreset> = Vec::new();
    for i in 0..15 {
        recent = add_recent(&recent, entry(&format!("/tmp/preset{}.json", i), &format!("Preset {}", i), i));
    }
    assert_eq!(recent.len(), MAX_RECENT_PRESETS);
    assert_eq!(recent[0].name, "Preset 14");
}

#[test]
fn test_remove_from_recent() {
    let recent: Vec<RecentPreset> = Vec::new();
    let recent = add_recent(&recent, entry("/tmp/preset1.json", "Preset 1", 1));
    let recent = add_recent(&recent, entry("/tmp/preset2.json", "Preset 2", 2));

    let recent = remove_recent_path(&recent, "/tmp/preset1.json");

    assert_eq!(recent.len(), 1);
    assert_eq!(recent[0].name, "Preset 2");
}

#[test]
fn re_adding_a_preset_moves_it_to_the_front() {
    let mut recent: Vec<RecentPreset> = Vec::new();
    recent = add_recent(&recent, entry("a", "A", 1));
    recent = add_recent(&recent, entry("b", "B", 2));
    recent = add_recent(&recent, entry("a", "A2", 3));
    let names: Vec<&str> = recent.iter().map(|p| p.name.as_str()).collect();
    assert_eq!(names, vec!["A2", "B"]);
    assert_eq!(recent[0].timestamp, 3);
}

#[test]
fn default_bindings_are_sorted_and_complete() {
    let kb = default_key_bindings();
    assert_eq!(kb.len(), 12);
    let actions: Vec<&str> = kb.iter().map(|b| b.0.as_str()).collect();
    let mut sorted = actions.clone();
    sorted.sort();
    assert_eq!(actions, sorted);
    assert!(kb.contains(&("open_settings".to_string(), "alt+'".to_string())));
    assert!(kb.contains(&("toggle_reader".to_string(), "home".to_string())));
}

fn kb(v: &[(&str, &str)]) -> Vec<(String, String)> {
    v.iter().map(|(a, k)| (a.to_string(), k.to_string())).collect()
}

fn value<'a>(kb: &'a [(String, String)], action: &str) -> &'a str {
    kb.iter().find(|b| b.0 == action).map(|b| b.1.as_str()).unwrap()
}

#[test]
fn sanitize_defaults_are_untouched() {
    let mut bindings = default_key_bindings();
    let issues = sanitize_key_bindings(&mut bindings);
    assert!(issues.is_empty());
    assert_eq!(bindings, default_key_bindings());
}

#[test]
fn sanitize_migrates_removes_repairs_and_dedups() {
    let mut bindings = kb(&[
        ("open_settings", "alt+`"),
        ("obsolete_action", "f9"),
        ("volume_up", "super+x"),
        ("volume_down", ""),
        ("toggle_reader", "F5"),
        ("test_sound", "f5"),
    ]);
    let issues = sanitize_key_bindings(&mut bindings);
    assert_eq!(bindings.len(), 12);
    assert_eq!(value(&bindings, "open_settings"), "alt+'");
    assert!(bindings.iter().all(|b| b.0 != "obsolete_action"));
    // Invalid hotkey reset to its default.
    assert_eq!(value(&bindings, "volume_up"), "page_up");
    // Explicitly empty stays unbound.
    assert_eq!(value(&bindings, "volume_down"), "");
    // Missing actions get their default.
    assert_eq!(value(&bindings, "debug_console"), "alt+d");
    // test_sound comes first alphabetically and keeps f5; toggle_reader loses it.
    assert_eq!(value(&bindings, "test_sound"), "f5");
    assert_eq!(value(&bindings, "toggle_reader"), "");
    assert_eq!(
        issues,
        vec![
            "zmieniono skrót ustawień: alt+` → alt+'".to_string(),
            "usunięto nieznany skrót „obsolete_action”".to_string(),
            "naprawiono skrót „volume_up”: „super+x” → „page_up”".to_string(),
            "skrót „toggle_reader” był taki sam jak „test_sound” — wyłączono".to_string(),
        ]
    );
}

fn resource_paths(audio: &str, names: &str, shots: &str, text: &str) -> gamereader::presets::ResourcePaths {
    gamereader::presets::ResourcePaths {
        audio_dir: audio.to_string(),
        names_file_path: names.to_string(),
        screenshot_dir: shots.to_string(),
        text_file_path: text.to_string(),
    }
}

#[test]
fn discovery_fills_only_blank_paths() {
    let found = gamereader::presets::FoundResources {
        audio_dir: Some("/g/audio".to_string()),
        names_file: Some("/g/subtitles/names.txt".to_string()),
        screenshot_dir: None,
        subtitles_pl: Some("/g/subtitlesPL.txt".to_string()),
        subtitles_en: None,
    };
    let current = resource_paths("  ", "/mine/names.txt", "", "");
    let (paths, ask) = gamereader::presets::discover_resources(&current, &found);
    assert_eq!(paths.audio_dir, "/g/audio");
    assert_eq!(paths.names_file_path, "/mine/names.txt");
    assert_eq!(paths.screenshot_dir, "");
    assert_eq!(paths.text_file_path, "/g/subtitlesPL.txt");
    assert!(!ask);
}

#[test]
fn discovery_asks_when_both_languages_exist() {
    let found = gamereader::presets::FoundResources {
        audio_dir: None,
        names_file: None,
        screenshot_dir: Some("/g/screenshots".to_string()),
        subtitles_pl: Some("/g/subtitlesPL.txt".to_string()),
        subtitles_en: Some("/g/subtitlesEN.txt".to_string()),
    };
    let (paths, ask) = gamereader::presets::discover_resources(&resource_paths("", "", "", ""), &found);
    assert!(ask);
    assert_eq!(paths.text_file_path, "");
    assert_eq!(paths.screenshot_dir, "/g/screenshots");
    let (kept, ask2) = gamereader::presets::discover_resources(&resource_paths("", "", "", "/x.txt"), &found);
    assert!(!ask2);
    assert_eq!(kept.text_file_path, "/x.txt");
    let only_en = gamereader::presets::FoundResources { subtitles_pl: None, ..found };
    let (en, _) = gamereader::presets::discover_resources(&resource_paths("", "", "", " "), &only_en);
    assert_eq!(en.text_file_path, "/g/subtitlesEN.txt");
}

#[test]
fn second_clean_up_changes_and_reports_nothing() {
    let mut bindings = kb(&[
        ("open_settings", "alt+`"),
        ("volume_up", "shift+c"),
        ("overlap_speed_up", "shift+c"),
        ("toggle_reader", "super+q"),
        ("skip_next_line", "end"),
        ("test_sound", "  "),
    ]);
    let first = sanitize_key_bindings(&mut bindings);
    assert!(!first.is_empty());
    let once = bindings.clone();
    let second = sanitize_key_bindings(&mut bindings);
    assert!(second.is_empty(), "{:?}", second);
    assert_eq!(bindings, once);
}

#[test]
fn only_known_actions_are_kept() {
    let kept = gamereader::presets::keep_known_actions(kb(&[
        ("skip_next_line", "end"),
        ("volume_up", "page_up"),
        ("toggle_areas_old", "x"),
        ("home", "home"),
        ("toggle_reader", "home"),
    ]));
    assert_eq!(kept, kb(&[("volume_up", "page_up"), ("toggle_reader", "home")]));
}

use gamereader::logging::{push_history, push_user_log, recent_logs, recent_user_logs, trimmed_log_line, LogBuffers, MAX_HISTORY};
use gamereader::state::RuntimeState;
use gamereader::windows::{monitor_rect_by_id, pick_window, query_for_hwnd, window_info_for_hwnd, MonitorInfo, WindowCandidate};

fn monitor(id: &str, x: i32) -> MonitorInfo {
    MonitorInfo { id: id.to_string(), name: id.to_string(), x, y: 0, width: 1920, height: 1080, primary: x == 0 }
}

#[test]
fn monitor_lookup_by_trimmed_id() {
    let ms = vec![monitor("\\\\.\\DISPLAY1", 0), monitor("\\\\.\\DISPLAY2", 1920)];
    assert_eq!(monitor_rect_by_id(&ms, " \\\\.\\DISPLAY2 "), Some((1920, 0, 1920, 1080)));
    assert_eq!(monitor_rect_by_id(&ms, "   "), None);
    assert_eq!(monitor_rect_by_id(&ms, "\\\\.\\DISPLAY3"), None);
}

#[test]
fn query_and_info_for_window_handle() {
    let ws = vec![
        (10isize, "Game Window".to_string(), "game.exe".to_string()),
        (11isize, "Untitled".to_string(), String::new()),
    ];
    assert_eq!(query_for_hwnd(&ws, 10), Some("game.exe".to_string()));
    assert_eq!(query_for_hwnd(&ws, 11), Some("Untitled".to_string()));
    assert_eq!(query_for_hwnd(&ws, 12), None);
    assert_eq!(window_info_for_hwnd(&ws, 10), Some(("game.exe".to_string(), "Game Window".to_string())));
}

fn cand(h: isize, p: Option<&str>, t: Option<&str>) -> WindowCandidate {
    WindowCandidate { hwnd: h, process_name: p.map(|s| s.to_string()), title: t.map(|s| s.to_string()) }
}

#[test]
fn window_picking_rules() {
    let ws = vec![
        cand(1, Some("brave.exe"), Some("News - Brave")),
        cand(2, Some("GTA-SA.exe"), Some("GTA: San Andreas")),
        cand(3, Some("brave.exe"), Some("Wiki - Brave")),
        cand(4, None, Some("Some Other")),
    ];
    // Process name, ASCII case ignored, query trimmed.
    assert_eq!(pick_window(&ws, " gta-sa.EXE ", 0, "", None), Ok(1));
    // Pinned window wins for the query it was pinned for.
    assert_eq!(pick_window(&ws, "brave.exe", 3, "brave.exe", None), Ok(2));
    // A pin for another query is ignored.
    assert_eq!(pick_window(&ws, "brave.exe", 3, "other", None), Ok(0));
    // Title substring, case ignored.
    assert_eq!(pick_window(&ws, "san andreas", 0, "", None), Ok(1));
    assert_eq!(pick_window(&ws, "other", 0, "", None), Ok(3));
    // Empty query: the auto-detected game window.
    assert_eq!(pick_window(&ws, "  ", 0, "", Some(4)), Ok(3));
    assert_eq!(
        pick_window(&ws, "", 0, "", None),
        Err("No window query set and no usable game window detected".to_string())
    );
    assert_eq!(pick_window(&ws, "missing", 0, "", None), Err("No window matching 'missing'".to_string()));
}

#[test]
fn log_history_trims_and_caps() {
    let mut b = LogBuffers::new();
    push_history(&mut b, "first line\r\n");
    push_history(&mut b, "\n");
    push_history(&mut b, "second");
    assert_eq!(recent_logs(&b), vec!["first line".to_string(), "second".to_string()]);
    assert!(recent_user_logs(&b).is_empty());
    for i in 0..(MAX_HISTORY + 5) {
        push_user_log(&mut b, format!("u{}", i));
    }
    let user = recent_user_logs(&b);
    assert_eq!(user.len(), MAX_HISTORY);
    assert_eq!(user[0], "u5");
    assert_eq!(user[MAX_HISTORY - 1], format!("u{}", MAX_HISTORY + 4));
    assert_eq!(trimmed_log_line("x\n\n"), Some("x".to_string()));
    assert_eq!(trimmed_log_line("\r\n"), None);
}

#[test]
fn runtime_state_default() {
    let s = RuntimeState::default();
    assert!(!s.capture_enabled);
    assert_eq!(s.active_monitor, 1);
    assert_eq!(s.selected_screen_monitor, 1);
    assert!(s.dialog_lines.is_empty());
    assert_eq!(s.audio_queue_len, 0);
}

#[test]
fn raw_history_keeps_last_nonempty_trimmed_lines() {
    let mut b = gamereader::logging::LogBuffers::new();
    for i in 0..2005 {
        gamereader::logging::push_history(&mut b, &format!("line {}\r\n", i));
        gamereader::logging::push_history(&mut b, "\n");
    }
    let lines = gamereader::logging::recent_logs(&b);
    assert_eq!(lines.len(), 2000);
    assert_eq!(lines[0], "line 5");
    assert_eq!(lines[1999], "line 2004");
    assert!(lines.iter().all(|l| !l.is_empty() && !l.ends_with('\n') && !l.ends_with('\r')));
}

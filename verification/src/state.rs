//! Runtime state that is not saved to presets.

use vstd::prelude::*;

verus! {

/// Transient application state.
#[derive(Debug, Clone)]
pub struct RuntimeState {
    pub capture_enabled: bool,
    /// 1 or 2
    pub active_monitor: u8,
    /// 1-based screen index
    pub selected_screen_monitor: u8,
    pub dialog_lines: Vec<String>,
    pub character_names: Vec<String>,
    pub preset_filename: String,
    pub preset_path: String,
    pub debug_enabled: bool,
    pub is_audio_playing: bool,
    pub audio_queue_len: usize,
}

impl Default for RuntimeState {
    /// Reader off, first monitor, nothing loaded.
    fn default() -> (s: Self)
        ensures
            !s.capture_enabled,
            s.active_monitor == 1,
            s.selected_screen_monitor == 1,
            s.dialog_lines@.len() == 0,
            s.character_names@.len() == 0,
            s.preset_filename@.len() == 0,
            s.preset_path@.len() == 0,
            !s.debug_enabled,
            !s.is_audio_playing,
            s.audio_queue_len == 0,
    {
        RuntimeState {
            capture_enabled: false,
            active_monitor: 1,
            selected_screen_monitor: 1,
            dialog_lines: Vec::new(),
            character_names: Vec::new(),
            preset_filename: String::new(),
            preset_path: String::new(),
            debug_enabled: false,
            is_audio_playing: false,
            audio_queue_len: 0,
        }
    }
}

} // verus!

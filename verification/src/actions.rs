//! What a hotkey action name asks for, and the decisions that follow from it
//! before any window, audio or pipeline is touched.

use vstd::prelude::*;
use crate::region::ActiveRegion;
use crate::text::{chars_eq, chars_of};

verus! {

/// The actions a hotkey can trigger.
#[derive(Debug, Clone, Copy, PartialEq, Eq, Structural)]
pub enum HotkeyAction {
    ToggleReader,
    EnableReader,
    DisableReader,
    InterruptAudio,
    SkipNextLine,
    SwitchMonitorToggle,
    ToggleAreas,
    OpenSettings,
    VolumeUp,
    VolumeDown,
    BaseSpeedUp,
    BaseSpeedDown,
    OverlapSpeedUp,
    OverlapSpeedDown,
    TestSound,
    DebugConsole,
    Unknown,
}

/// Action names and the actions they denote.
pub open spec fn action_table() -> Seq<(Seq<char>, HotkeyAction)> {
    seq![
        ("toggle_reader"@, HotkeyAction::ToggleReader),
        ("enable_reader"@, HotkeyAction::EnableReader),
        ("disable_reader"@, HotkeyAction::DisableReader),
        ("interrupt_audio"@, HotkeyAction::InterruptAudio),
        ("skip_next_line"@, HotkeyAction::SkipNextLine),
        ("switch_monitor_toggle"@, HotkeyAction::SwitchMonitorToggle),
        ("toggle_areas"@, HotkeyAction::ToggleAreas),
        ("open_settings"@, HotkeyAction::OpenSettings),
        ("volume_up"@, HotkeyAction::VolumeUp),
        ("volume_down"@, HotkeyAction::VolumeDown),
        ("base_speed_up"@, HotkeyAction::BaseSpeedUp),
        ("base_speed_down"@, HotkeyAction::BaseSpeedDown),
        ("overlap_speed_up"@, HotkeyAction::OverlapSpeedUp),
        ("overlap_speed_down"@, HotkeyAction::OverlapSpeedDown),
        ("test_sound"@, HotkeyAction::TestSound),
        ("debug_console"@, HotkeyAction::DebugConsole),
    ]
}

/// The action of the first table entry named `name`, `Unknown` if none.
pub open spec fn action_named(table: Seq<(Seq<char>, HotkeyAction)>, name: Seq<char>) -> HotkeyAction
    decreases table.len(),
{
    if table.len() == 0 {
        HotkeyAction::Unknown
    } else if table[0].0 == name {
        table[0].1
    } else {
        action_named(table.skip(1), name)
    }
}

/// The action a hotkey action name denotes.
pub fn classify_action(action: &str) -> (r: HotkeyAction)
    ensures
        r == action_named(action_table(), action@),
{
    let names = [
        "toggle_reader", "enable_reader", "disable_reader", "interrupt_audio", "skip_next_line",
        "switch_monitor_toggle", "toggle_areas", "open_settings", "volume_up", "volume_down",
        "base_speed_up", "base_speed_down", "overlap_speed_up", "overlap_speed_down", "test_sound",
        "debug_console",
    ];
    let actions = [
        HotkeyAction::ToggleReader, HotkeyAction::EnableReader, HotkeyAction::DisableReader,
        HotkeyAction::InterruptAudio, HotkeyAction::SkipNextLine, HotkeyAction::SwitchMonitorToggle,
        HotkeyAction::ToggleAreas, HotkeyAction::OpenSettings, HotkeyAction::VolumeUp,
        HotkeyAction::VolumeDown, HotkeyAction::BaseSpeedUp, HotkeyAction::BaseSpeedDown,
        HotkeyAction::OverlapSpeedUp, HotkeyAction::OverlapSpeedDown, HotkeyAction::TestSound,
        HotkeyAction::DebugConsole,
    ];
    let ghost t = action_table();
    assert forall|q: int| 0 <= q < 16 implies (#[trigger] t[q]).0 == names@[q]@ && t[q].1 == actions@[q] by {}
    assert(t.skip(0) =~= t);
    let a = chars_of(action);
    let mut i: usize = 0;
    while i < 16
        invariant
            i <= 16,
            t == action_table(),
            names@.len() == 16,
            actions@.len() == 16,
            forall|q: int| 0 <= q < 16 ==> (#[trigger] t[q]).0 == names@[q]@ && t[q].1 == actions@[q],
            action_named(t, action@) == action_named(t.skip(i as int), action@),
            a@ == action@,
        decreases 16 - i,
    {
        assert(t.skip(i as int)[0] == t[i as int]);
        assert(t.skip(i as int).skip(1) =~= t.skip(i + 1));
        let n = chars_of(names[i]);
        if chars_eq(n.as_slice(), a.as_slice()) {
            return actions[i];
        }
        i += 1;
    }
    assert(t.skip(16).len() == 0);
    HotkeyAction::Unknown
}

/// Each action name denotes its action: `toggle_reader` toggles the reader,
/// `enable_reader` and `disable_reader` start and stop it, and so on for
/// every name the settings use.
pub proof fn lemma_action_names()
    ensures
        action_named(action_table(), "toggle_reader"@) == HotkeyAction::ToggleReader,
        action_named(action_table(), "enable_reader"@) == HotkeyAction::EnableReader,
        action_named(action_table(), "disable_reader"@) == HotkeyAction::DisableReader,
        action_named(action_table(), "interrupt_audio"@) == HotkeyAction::InterruptAudio,
        action_named(action_table(), "skip_next_line"@) == HotkeyAction::SkipNextLine,
        action_named(action_table(), "switch_monitor_toggle"@) == HotkeyAction::SwitchMonitorToggle,
        action_named(action_table(), "toggle_areas"@) == HotkeyAction::ToggleAreas,
        action_named(action_table(), "open_settings"@) == HotkeyAction::OpenSettings,
        action_named(action_table(), "volume_up"@) == HotkeyAction::VolumeUp,
        action_named(action_table(), "volume_down"@) == HotkeyAction::VolumeDown,
        action_named(action_table(), "base_speed_up"@) == HotkeyAction::BaseSpeedUp,
        action_named(action_table(), "base_speed_down"@) == HotkeyAction::BaseSpeedDown,
        action_named(action_table(), "overlap_speed_up"@) == HotkeyAction::OverlapSpeedUp,
        action_named(action_table(), "overlap_speed_down"@) == HotkeyAction::OverlapSpeedDown,
        action_named(action_table(), "test_sound"@) == HotkeyAction::TestSound,
        action_named(action_table(), "debug_console"@) == HotkeyAction::DebugConsole,
{
    let t = action_table();
    assert(action_named(t, "toggle_reader"@) == HotkeyAction::ToggleReader) by {
        reveal_strlit("toggle_reader");
        lemma_action_at(t, "toggle_reader"@, 0);
    }
    assert(action_named(t, "enable_reader"@) == HotkeyAction::EnableReader) by {
        reveal_strlit("enable_reader");
        reveal_strlit("toggle_reader");
        assert("enable_reader"@[0] != "toggle_reader"@[0]);
        lemma_action_at(t, "enable_reader"@, 1);
    }
    assert(action_named(t, "disable_reader"@) == HotkeyAction::DisableReader) by {
        reveal_strlit("disable_reader");
        reveal_strlit("toggle_reader");
        reveal_strlit("enable_reader");
        assert("disable_reader"@.len() == 14 && "toggle_reader"@.len() == 13 && "enable_reader"@.len() == 13);
        lemma_action_at(t, "disable_reader"@, 2);
    }
    assert(action_named(t, "interrupt_audio"@) == HotkeyAction::InterruptAudio) by {
        reveal_strlit("interrupt_audio");
        reveal_strlit("toggle_reader");
        reveal_strlit("enable_reader");
        reveal_strlit("disable_reader");
        assert("interrupt_audio"@.len() == 15 && "toggle_reader"@.len() == 13 && "enable_reader"@.len() == 13 && "disable_reader"@.len() == 14);
        lemma_action_at(t, "interrupt_audio"@, 3);
    }
    assert(action_named(t, "skip_next_line"@) == HotkeyAction::SkipNextLine) by {
        reveal_strlit("skip_next_line");
        reveal_strlit("toggle_reader");
        reveal_strlit("enable_reader");
        reveal_strlit("disable_reader");
        reveal_strlit("interrupt_audio");
        assert("skip_next_line"@[0] != "disable_reader"@[0]);
        assert("skip_next_line"@.len() == 14 && "toggle_reader"@.len() == 13 && "enable_reader"@.len() == 13 && "interrupt_audio"@.len() == 15);
        lemma_action_at(t, "skip_next_line"@, 4);
    }
    assert(action_named(t, "switch_monitor_toggle"@) == HotkeyAction::SwitchMonitorToggle) by {
        reveal_strlit("switch_monitor_toggle");
        reveal_strlit("toggle_reader");
        reveal_strlit("enable_reader");
        reveal_strlit("disable_reader");
        reveal_strlit("interrupt_audio");
        reveal_strlit("skip_next_line");
        assert("switch_monitor_toggle"@.len() == 21 && "toggle_reader"@.len() == 13 && "enable_reader"@.len() == 13 && "disable_reader"@.len() == 14 && "interrupt_audio"@.len() == 15 && "skip_next_line"@.len() == 14);
        lemma_action_at(t, "switch_monitor_toggle"@, 5);
    }
    assert(action_named(t, "toggle_areas"@) == HotkeyAction::ToggleAreas) by {
        reveal_strlit("toggle_areas");
        reveal_strlit("toggle_reader");
        reveal_strlit("enable_reader");
        reveal_strlit("disable_reader");
        reveal_strlit("interrupt_audio");
        reveal_strlit("skip_next_line");
        reveal_strlit("switch_monitor_toggle");
        assert("toggle_areas"@.len() == 12 && "toggle_reader"@.len() == 13 && "enable_reader"@.len() == 13 && "disable_reader"@.len() == 14 && "interrupt_audio"@.len() == 15 && "skip_next_line"@.len() == 14 && "switch_monitor_toggle"@.len() == 21);
        lemma_action_at(t, "toggle_areas"@, 6);
    }
    assert(action_named(t, "open_settings"@) == HotkeyAction::OpenSettings) by {
        reveal_strlit("open_settings");
        reveal_strlit("toggle_reader");
        reveal_strlit("enable_reader");
        reveal_strlit("disable_reader");
        reveal_strlit("interrupt_audio");
        reveal_strlit("skip_next_line");
        reveal_strlit("switch_monitor_toggle");
        reveal_strlit("toggle_areas");
        assert("open_settings"@[0] != "toggle_reader"@[0] && "open_settings"@[0] != "enable_reader"@[0]);
        assert("open_settings"@.len() == 13 && "disable_reader"@.len() == 14 && "interrupt_audio"@.len() == 15 && "skip_next_line"@.len() == 14 && "switch_monitor_toggle"@.len() == 21 && "toggle_areas"@.len() == 12);
        lemma_action_at(t, "open_settings"@, 7);
    }
    assert(action_named(t, "volume_up"@) == HotkeyAction::VolumeUp) by {
        reveal_strlit("volume_up");
        reveal_strlit("toggle_reader");
        reveal_strlit("enable_reader");
        reveal_strlit("disable_reader");
        reveal_strlit("interrupt_audio");
        reveal_strlit("skip_next_line");
        reveal_strlit("switch_monitor_toggle");
        reveal_strlit("toggle_areas");
        reveal_strlit("open_settings");
        assert("volume_up"@.len() == 9 && "toggle_reader"@.len() == 13 && "enable_reader"@.len() == 13 && "disable_reader"@.len() == 14 && "interrupt_audio"@.len() == 15 && "skip_next_line"@.len() == 14 && "switch_monitor_toggle"@.len() == 21 && "toggle_areas"@.len() == 12 && "open_settings"@.len() == 13);
        lemma_action_at(t, "volume_up"@, 8);
    }
    assert(action_named(t, "volume_down"@) == HotkeyAction::VolumeDown) by {
        reveal_strlit("volume_down");
        reveal_strlit("toggle_reader");
        reveal_strlit("enable_reader");
        reveal_strlit("disable_reader");
        reveal_strlit("interrupt_audio");
        reveal_strlit("skip_next_line");
        reveal_strlit("switch_monitor_toggle");
        reveal_strlit("toggle_areas");
        reveal_strlit("open_settings");
        reveal_strlit("volume_up");
        assert("volume_down"@.len() == 11 && "toggle_reader"@.len() == 13 && "enable_reader"@.len() == 13 && "disable_reader"@.len() == 14 && "interrupt_audio"@.len() == 15 && "skip_next_line"@.len() == 14 && "switch_monitor_toggle"@.len() == 21 && "toggle_areas"@.len() == 12 && "open_settings"@.len() == 13 && "volume_up"@.len() == 9);
        lemma_action_at(t, "volume_down"@, 9);
    }
    assert(action_named(t, "base_speed_up"@) == HotkeyAction::BaseSpeedUp) by {
        reveal_strlit("base_speed_up");
        reveal_strlit("toggle_reader");
        reveal_strlit("enable_reader");
        reveal_strlit("disable_reader");
        reveal_strlit("interrupt_audio");
        reveal_strlit("skip_next_line");
        reveal_strlit("switch_monitor_toggle");
        reveal_strlit("toggle_areas");
        reveal_strlit("open_settings");
        reveal_strlit("volume_up");
        reveal_strlit("volume_down");
        assert("base_speed_up"@[0] != "toggle_reader"@[0] && "base_speed_up"@[0] != "enable_reader"@[0] && "base_speed_up"@[0] != "open_settings"@[0]);
        assert("base_speed_up"@.len() == 13 && "disable_reader"@.len() == 14 && "interrupt_audio"@.len() == 15 && "skip_next_line"@.len() == 14 && "switch_monitor_toggle"@.len() == 21 && "toggle_areas"@.len() == 12 && "volume_up"@.len() == 9 && "volume_down"@.len() == 11);
        lemma_action_at(t, "base_speed_up"@, 10);
    }
    assert(action_named(t, "base_speed_down"@) == HotkeyAction::BaseSpeedDown) by {
        reveal_strlit("base_speed_down");
        reveal_strlit("toggle_reader");
        reveal_strlit("enable_reader");
        reveal_strlit("disable_reader");
        reveal_strlit("interrupt_audio");
        reveal_strlit("skip_next_line");
        reveal_strlit("switch_monitor_toggle");
        reveal_strlit("toggle_areas");
        reveal_strlit("open_settings");
        reveal_strlit("volume_up");
        reveal_strlit("volume_down");
        reveal_strlit("base_speed_up");
        assert("base_speed_down"@[0] != "interrupt_audio"@[0]);
        assert("base_speed_down"@.len() == 15 && "toggle_reader"@.len() == 13 && "enable_reader"@.len() == 13 && "disable_reader"@.len() == 14 && "skip_next_line"@.len() == 14 && "switch_monitor_toggle"@.len() == 21 && "toggle_areas"@.len() == 12 && "open_settings"@.len() == 13 && "volume_up"@.len() == 9 && "volume_down"@.len() == 11 && "base_speed_up"@.len() == 13);
        lemma_action_at(t, "base_speed_down"@, 11);
    }
    assert(action_named(t, "overlap_speed_up"@) == HotkeyAction::OverlapSpeedUp) by {
        reveal_strlit("overlap_speed_up");
        reveal_strlit("toggle_reader");
        reveal_strlit("enable_reader");
        reveal_strlit("disable_reader");
        reveal_strlit("interrupt_audio");
        reveal_strlit("skip_next_line");
        reveal_strlit("switch_monitor_toggle");
        reveal_strlit("toggle_areas");
        reveal_strlit("open_settings");
        reveal_strlit("volume_up");
        reveal_strlit("volume_down");
        reveal_strlit("base_speed_up");
        reveal_strlit("base_speed_down");
        assert("overlap_speed_up"@.len() == 16 && "toggle_reader"@.len() == 13 && "enable_reader"@.len() == 13 && "disable_reader"@.len() == 14 && "interrupt_audio"@.len() == 15 && "skip_next_line"@.len() == 14 && "switch_monitor_toggle"@.len() == 21 && "toggle_areas"@.len() == 12 && "open_settings"@.len() == 13 && "volume_up"@.len() == 9 && "volume_down"@.len() == 11 && "base_speed_up"@.len() == 13 && "base_speed_down"@.len() == 15);
        lemma_action_at(t, "overlap_speed_up"@, 12);
    }
    assert(action_named(t, "overlap_speed_down"@) == HotkeyAction::OverlapSpeedDown) by {
        reveal_strlit("overlap_speed_down");
        reveal_strlit("toggle_reader");
        reveal_strlit("enable_reader");
        reveal_strlit("disable_reader");
        reveal_strlit("interrupt_audio");
        reveal_strlit("skip_next_line");
        reveal_strlit("switch_monitor_toggle");
        reveal_strlit("toggle_areas");
        reveal_strlit("open_settings");
        reveal_strlit("volume_up");
        reveal_strlit("volume_down");
        reveal_strlit("base_speed_up");
        reveal_strlit("base_speed_down");
        reveal_strlit("overlap_speed_up");
        assert("overlap_speed_down"@.len() == 18 && "toggle_reader"@.len() == 13 && "enable_reader"@.len() == 13 && "disable_reader"@.len() == 14 && "interrupt_audio"@.len() == 15 && "skip_next_line"@.len() == 14 && "switch_monitor_toggle"@.len() == 21 && "toggle_areas"@.len() == 12 && "open_settings"@.len() == 13 && "volume_up"@.len() == 9 && "volume_down"@.len() == 11 && "base_speed_up"@.len() == 13 && "base_speed_down"@.len() == 15 && "overlap_speed_up"@.len() == 16);
        lemma_action_at(t, "overlap_speed_down"@, 13);
    }
    assert(action_named(t, "test_sound"@) == HotkeyAction::TestSound) by {
        reveal_strlit("test_sound");
        reveal_strlit("toggle_reader");
        reveal_strlit("enable_reader");
        reveal_strlit("disable_reader");
        reveal_strlit("interrupt_audio");
        reveal_strlit("skip_next_line");
        reveal_strlit("switch_monitor_toggle");
        reveal_strlit("toggle_areas");
        reveal_strlit("open_settings");
        reveal_strlit("volume_up");
        reveal_strlit("volume_down");
        reveal_strlit("base_speed_up");
        reveal_strlit("base_speed_down");
        reveal_strlit("overlap_speed_up");
        reveal_strlit("overlap_speed_down");
        assert("test_sound"@.len() == 10 && "toggle_reader"@.len() == 13 && "enable_reader"@.len() == 13 && "disable_reader"@.len() == 14 && "interrupt_audio"@.len() == 15 && "skip_next_line"@.len() == 14 && "switch_monitor_toggle"@.len() == 21 && "toggle_areas"@.len() == 12 && "open_settings"@.len() == 13 && "volume_up"@.len() == 9 && "volume_down"@.len() == 11 && "base_speed_up"@.len() == 13 && "base_speed_down"@.len() == 15 && "overlap_speed_up"@.len() == 16 && "overlap_speed_down"@.len() == 18);
        lemma_action_at(t, "test_sound"@, 14);
    }
    assert(action_named(t, "debug_console"@) == HotkeyAction::DebugConsole) by {
        reveal_strlit("debug_console");
        reveal_strlit("toggle_reader");
        reveal_strlit("enable_reader");
        reveal_strlit("disable_reader");
        reveal_strlit("interrupt_audio");
        reveal_strlit("skip_next_line");
        reveal_strlit("switch_monitor_toggle");
        reveal_strlit("toggle_areas");
        reveal_strlit("open_settings");
        reveal_strlit("volume_up");
        reveal_strlit("volume_down");
        reveal_strlit("base_speed_up");
        reveal_strlit("base_speed_down");
        reveal_strlit("overlap_speed_up");
        reveal_strlit("overlap_speed_down");
        reveal_strlit("test_sound");
        assert("debug_console"@[0] != "toggle_reader"@[0] && "debug_console"@[0] != "enable_reader"@[0] && "debug_console"@[0] != "open_settings"@[0] && "debug_console"@[0] != "base_speed_up"@[0]);
        assert("debug_console"@.len() == 13 && "disable_reader"@.len() == 14 && "interrupt_audio"@.len() == 15 && "skip_next_line"@.len() == 14 && "switch_monitor_toggle"@.len() == 21 && "toggle_areas"@.len() == 12 && "volume_up"@.len() == 9 && "volume_down"@.len() == 11 && "base_speed_down"@.len() == 15 && "overlap_speed_up"@.len() == 16 && "overlap_speed_down"@.len() == 18 && "test_sound"@.len() == 10);
        lemma_action_at(t, "debug_console"@, 15);
    }
}

proof fn lemma_action_at(table: Seq<(Seq<char>, HotkeyAction)>, name: Seq<char>, q: int)
    requires
        0 <= q < table.len(),
        table[q].0 == name,
        forall|j: int| 0 <= j < q ==> #[trigger] table[j].0 != name,
    ensures
        action_named(table, name) == table[q].1,
    decreases q,
{
    if q > 0 {
        assert forall|j: int| 0 <= j < q - 1 implies #[trigger] table.skip(1)[j].0 != name by {
            assert(table.skip(1)[j] == table[j + 1]);
        }
        lemma_action_at(table.skip(1), name, q - 1);
    }
}

/// Only those names denote an action: any other name is `Unknown`.
pub proof fn lemma_unknown_action_names(name: Seq<char>)
    ensures
        action_named(action_table(), name) != HotkeyAction::Unknown ==> (name == "toggle_reader"@ || name == "enable_reader"@ || name == "disable_reader"@ || name == "interrupt_audio"@ || name == "skip_next_line"@ || name == "switch_monitor_toggle"@ || name == "toggle_areas"@ || name == "open_settings"@ || name == "volume_up"@ || name == "volume_down"@ || name == "base_speed_up"@ || name == "base_speed_down"@ || name == "overlap_speed_up"@ || name == "overlap_speed_down"@ || name == "test_sound"@ || name == "debug_console"@),
{
    lemma_action_found(action_table(), name);
    if action_named(action_table(), name) != HotkeyAction::Unknown {
        let q = choose|q: int| 0 <= q < action_table().len() && #[trigger] action_table()[q].0 == name;
        assert(0 <= q < 16);
    }
}

proof fn lemma_action_found(table: Seq<(Seq<char>, HotkeyAction)>, name: Seq<char>)
    ensures
        action_named(table, name) != HotkeyAction::Unknown ==> exists|q: int| 0 <= q < table.len()
            && #[trigger] table[q].0 == name,
    decreases table.len(),
{
    if table.len() > 0 && table[0].0 != name {
        lemma_action_found(table.skip(1), name);
        if action_named(table, name) != HotkeyAction::Unknown {
            let q = choose|q: int| 0 <= q < table.skip(1).len() && #[trigger] table.skip(1)[q].0 == name;
            assert(table[q + 1] == table.skip(1)[q]);
        }
    }
}

/// What the reader pipeline is asked to do.
#[derive(Debug, Clone, Copy, PartialEq, Eq, Structural)]
pub enum ReaderCommand {
    Start,
    Stop,
}

/// The reader command of a reader action: enable starts, disable stops,
/// toggle stops a running reader and starts a stopped one; other actions
/// leave the reader alone.
pub fn reader_command(action: HotkeyAction, is_running: bool) -> (r: Option<ReaderCommand>)
    ensures
        action == HotkeyAction::EnableReader ==> r == Some(ReaderCommand::Start),
        action == HotkeyAction::DisableReader ==> r == Some(ReaderCommand::Stop),
        action == HotkeyAction::ToggleReader ==> r == Some(if is_running { ReaderCommand::Stop } else { ReaderCommand::Start }),
        action != HotkeyAction::EnableReader && action != HotkeyAction::DisableReader
            && action != HotkeyAction::ToggleReader ==> r is None,
{
    match action {
        HotkeyAction::EnableReader => Some(ReaderCommand::Start),
        HotkeyAction::DisableReader => Some(ReaderCommand::Stop),
        HotkeyAction::ToggleReader => if is_running {
            Some(ReaderCommand::Stop)
        } else {
            Some(ReaderCommand::Start)
        },
        _ => None,
    }
}

/// The on-screen note after the reader was started or stopped.
pub fn reader_hud_text(started: bool) -> (r: String)
    ensures
        started ==> r@ == "Uruchomiono lektora"@,
        !started ==> r@ == "Zatrzymano lektora"@,
{
    if started {
        "Uruchomiono lektora".to_owned()
    } else {
        "Zatrzymano lektora".to_owned()
    }
}

/// The system sound and on-screen note after switching the active region.
pub fn region_switch_feedback(region: ActiveRegion) -> (r: (String, String))
    ensures
        region == ActiveRegion::Monitor1 ==> r.0@ == "area1"@ && r.1@ == "Przełączono na region 1"@,
        region == ActiveRegion::Monitor2 ==> r.0@ == "area2"@ && r.1@ == "Przełączono na region 2"@,
{
    match region {
        ActiveRegion::Monitor1 => ("area1".to_owned(), "Przełączono na region 1".to_owned()),
        ActiveRegion::Monitor2 => ("area2".to_owned(), "Przełączono na region 2".to_owned()),
    }
}

/// The on-screen note after the OCR region frame was shown or hidden.
pub fn areas_hud_text(now_visible: bool) -> (r: String)
    ensures
        now_visible ==> r@ == "Pokazano obszar wykrywania"@,
        !now_visible ==> r@ == "Ukryto obszar wykrywania"@,
{
    if now_visible {
        "Pokazano obszar wykrywania".to_owned()
    } else {
        "Ukryto obszar wykrywania".to_owned()
    }
}

/// The on-screen note of the actions whose note does not depend on any state.
pub fn fixed_hud_text(action: HotkeyAction) -> (r: Option<String>)
    ensures
        action == HotkeyAction::InterruptAudio ==> (r matches Some(s) && s@ == "Przerwano kwestię lektora"@),
        action == HotkeyAction::SkipNextLine ==> (r matches Some(s) && s@ == "Pominięto kwestię"@),
        action == HotkeyAction::TestSound ==> (r matches Some(s) && s@ == "Test dźwięku"@),
        action != HotkeyAction::InterruptAudio && action != HotkeyAction::SkipNextLine
            && action != HotkeyAction::TestSound ==> r is None,
{
    match action {
        HotkeyAction::InterruptAudio => Some("Przerwano kwestię lektora".to_owned()),
        HotkeyAction::SkipNextLine => Some("Pominięto kwestię".to_owned()),
        HotkeyAction::TestSound => Some("Test dźwięku".to_owned()),
        _ => None,
    }
}

} // verus!

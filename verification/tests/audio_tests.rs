use gamereader::audio::{ducking_target, find_audio_file, find_system_sound, AudioCommand, AudioQueue};

#[derive(Debug, Clone, PartialEq)]
enum Item {
    Line(String),
    System(String),
}

#[test]
fn test_audio_queue_new() {
    let queue: AudioQueue<Item> = AudioQueue::new(3);
    assert_eq!(queue.len(), 0);
    assert!(queue.is_empty());
    assert!(!queue.is_busy());
}

#[test]
fn test_audio_queue_enqueue_dequeue() {
    let mut queue = AudioQueue::new(3);

    let item1 = Item::Line("test1.ogg".to_string());
    let item2 = Item::System("test2.ogg".to_string());

    queue.enqueue(item1.clone());
    queue.enqueue(item2.clone());

    assert_eq!(queue.len(), 2);
    assert!(!queue.is_empty());

    assert_eq!(queue.dequeue(), Some(item1));
    assert_eq!(queue.dequeue(), Some(item2));
    assert_eq!(queue.dequeue(), None);
}

#[test]
fn test_queue_capacity_constraint() {
    let mut queue = AudioQueue::new(2);

    let item1 = Item::Line("1.ogg".to_string());
    let item2 = Item::Line("2.ogg".to_string());
    let item3 = Item::Line("3.ogg".to_string());

    queue.enqueue(item1.clone());
    queue.enqueue(item2.clone());
    assert_eq!(queue.len(), 2);

    queue.enqueue(item3.clone());
    assert_eq!(queue.len(), 2);

    assert_eq!(queue.dequeue(), Some(item2));
    assert_eq!(queue.dequeue(), Some(item3));
    assert_eq!(queue.dequeue(), None);
}

#[test]
fn test_fifo_ordering() {
    let mut queue = AudioQueue::new(10);

    for i in 1..=5 {
        queue.enqueue(Item::Line(format!("{}.ogg", i)));
    }

    for i in 1..=5 {
        let item = queue.dequeue().unwrap();
        match item {
            Item::Line(path) => assert_eq!(path, format!("{}.ogg", i)),
            _ => panic!("Expected Line item"),
        }
    }
}

#[test]
fn test_is_busy_flag() {
    let mut queue = AudioQueue::new(3);

    assert!(!queue.is_busy());

    queue.set_busy(true);
    assert!(queue.is_busy());

    queue.set_busy(false);
    assert!(!queue.is_busy());

    queue.enqueue(Item::System("test.ogg".to_string()));
    assert!(queue.is_busy());
}

#[test]
fn test_clear_queue() {
    let mut queue = AudioQueue::new(3);

    queue.enqueue(Item::Line("1.ogg".to_string()));
    queue.enqueue(Item::Line("2.ogg".to_string()));

    assert_eq!(queue.len(), 2);

    queue.clear();

    assert_eq!(queue.len(), 0);
    assert!(queue.is_empty());
}

#[test]
fn set_capacity_keeps_newest_items() {
    let mut queue = AudioQueue::new(5);
    for i in 1..=5u32 {
        queue.enqueue(i);
    }
    queue.set_capacity(2);
    assert_eq!(queue.len(), 2);
    assert_eq!(queue.dequeue(), Some(4));
    assert_eq!(queue.dequeue(), Some(5));
    // A zero capacity still admits one item.
    queue.set_capacity(0);
    queue.enqueue(7);
    queue.enqueue(8);
    assert_eq!(queue.len(), 1);
    assert_eq!(queue.dequeue(), Some(8));
}

#[test]
fn audio_commands_compare() {
    assert_eq!(AudioCommand::StopAll, AudioCommand::StopAll);
    assert_ne!(AudioCommand::StopAll, AudioCommand::SkipToNextWithBoost);
}

fn names(v: &[&str]) -> Vec<String> {
    v.iter().map(|s| s.to_string()).collect()
}

#[test]
fn test_find_audio_file() {
    let present = names(&["output1 (1).ogg", "readme.txt"]);
    assert_eq!(find_audio_file(&present, 1, false, false), Some("output1 (1).ogg".to_string()));
    assert_eq!(find_audio_file(&present, 999, false, false), None);
}

#[test]
fn find_audio_file_format_order_and_output2() {
    let present = names(&["output1 (12).flac", "output1 (12).mp3", "output2 (3).m4a"]);
    assert_eq!(find_audio_file(&present, 12, false, false), Some("output1 (12).mp3".to_string()));
    assert_eq!(find_audio_file(&present, 3, true, false), Some("output2 (3).m4a".to_string()));
    // Dynamic speed turns the second output off.
    assert_eq!(find_audio_file(&present, 3, true, true), None);
    assert_eq!(find_audio_file(&present, 3, false, false), None);
}

#[test]
fn test_find_system_sound() {
    let present = names(&["on.mp3"]);
    assert_eq!(find_system_sound(&present, "on"), Some("on.mp3".to_string()));
    assert_eq!(find_system_sound(&present, "nonexistent"), None);
}

#[test]
fn ducking_target_fallbacks() {
    assert_eq!(ducking_target("game.exe", "other.exe"), Some("game.exe".to_string()));
    assert_eq!(ducking_target("", "other.exe"), Some("other.exe".to_string()));
    assert_eq!(ducking_target("", ""), None);
}

#[test]
fn ducking_picks_target_sessions_ignoring_ascii_case() {
    let target = Some("Game.EXE".to_string());
    assert!(gamereader::audio::should_duck_session(7, 1, &target, &Some("game.exe".to_string())));
    assert!(!gamereader::audio::should_duck_session(7, 1, &target, &Some("game.exe2".to_string())));
    assert!(!gamereader::audio::should_duck_session(7, 1, &target, &None));
    assert!(!gamereader::audio::should_duck_session(1, 1, &None, &Some("x".to_string())));
    assert!(gamereader::audio::should_duck_session(2, 1, &None, &None));
}

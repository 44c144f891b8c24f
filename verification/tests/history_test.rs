use discord_mods_bot::command_history::{should_replay, CommandHistory, HOUR};

#[test]
fn recorded_response_is_found() {
    let mut h = CommandHistory::new();
    assert_eq!(h.len(), 0);
    assert_eq!(h.response(1), None);
    h.record(1, 100);
    h.record(2, 200);
    assert_eq!(h.response(1), Some(100));
    assert_eq!(h.response(2), Some(200));
    assert_eq!(h.len(), 2);
}

#[test]
fn recording_again_replaces_the_response() {
    let mut h = CommandHistory::new();
    h.record(1, 100);
    h.record(1, 101);
    assert_eq!(h.response(1), Some(101));
    assert_eq!(h.len(), 1);
}

#[test]
fn removed_command_has_no_response() {
    let mut h = CommandHistory::new();
    h.record(1, 100);
    h.record(2, 200);
    h.record(3, 300);
    assert_eq!(h.remove(1), Some(100));
    assert_eq!(h.response(1), None);
    assert_eq!(h.response(2), Some(200));
    assert_eq!(h.response(3), Some(300));
    assert_eq!(h.remove(1), None);
    assert_eq!(h.len(), 2);
}

#[test]
fn clearing_keeps_the_last_command() {
    let mut h = CommandHistory::new();
    h.clear();
    assert_eq!(h.len(), 0);
    h.record(1, 100);
    h.record(2, 200);
    h.record(3, 300);
    h.clear();
    assert_eq!(h.len(), 1);
    assert_eq!(h.response(3), Some(300));
    assert_eq!(h.response(1), None);
    assert_eq!(h.response(2), None);
}

#[test]
fn edits_within_an_hour_are_replayed() {
    assert_eq!(HOUR, 3600);
    assert!(should_replay(Some(0), "?tags"));
    assert!(should_replay(Some(3599), "?tag rules"));
    assert!(!should_replay(Some(3600), "?tags"));
    assert!(!should_replay(None, "?tags"));
    assert!(!should_replay(Some(10), "tags"));
    assert!(!should_replay(Some(10), ""));
}

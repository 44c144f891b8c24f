use discord_mods_bot::charset::CharacterSet;
use discord_mods_bot::commands::{key_value_pair, pattern_valid, Commands, PREFIX};
use discord_mods_bot::state_machine::StateMachine;

fn param<'a>(params: &'a [(String, String)], key: &str) -> Option<&'a str> {
    params.iter().find(|(k, _)| k == key).map(|(_, v)| v.as_str())
}

#[test]
fn key_value_pair_reads_option_names() {
    assert_eq!(key_value_pair("mode={}"), Some("mode"));
    assert_eq!(key_value_pair("warn={}"), Some("warn"));
    assert_eq!(key_value_pair("={}"), None);
    assert_eq!(key_value_pair("mode"), None);
    assert_eq!(key_value_pair("a={}b={}"), Some("a"));
}

#[test]
fn prefix_is_question_mark() {
    assert_eq!(PREFIX, "?");
}

#[test]
fn pattern_validity() {
    assert!(pattern_valid("?tags create {key} value..."));
    assert!(pattern_valid("?play mode={} edition={} channel={} warn={} ```\ncode``` ..."));
    assert!(pattern_valid("?eval `code` ..."));
    assert!(!pattern_valid("?eval ` ..."));
    assert!(!pattern_valid("?eval ```` ..."));
    assert!(!pattern_valid("?tagé"));
}

#[test]
fn character_set_membership() {
    let mut set = CharacterSet::from_chars(&[' ', '\n']);
    assert!(set.contains(' '));
    assert!(set.contains('\n'));
    assert!(!set.contains('a'));
    set.insert('a');
    assert!(set.contains('a'));
    set.remove(&['a']);
    assert!(!set.contains('a'));
    let mut any = CharacterSet::any();
    assert!(any.contains('x'));
    assert!(any.contains('é'));
    any.remove(&[' ']);
    assert!(!any.contains(' '));
    assert!(any.contains('é'));
}

#[test]
fn state_machine_recognises_a_word() {
    let mut sm = StateMachine::new();
    let a = sm.add(0, CharacterSet::from_char('h'));
    let b = sm.add(a, CharacterSet::from_char('i'));
    sm.set_final_state(b);
    assert_eq!(sm.len(), 3);
    let m = sm.process("hi").unwrap();
    assert_eq!(m.state, b);
    assert!(m.params.is_empty());
    assert!(sm.process("h").is_none());
    assert!(sm.process("hii").is_none());
}

#[test]
fn literal_commands_are_recognised() {
    let mut cmds: Commands<u32> = Commands::new();
    cmds.add("?tags", 1);
    cmds.add("?tag {key}", 2);
    cmds.add("?tags create {key} value...", 3);
    let (h, params) = cmds.execute("?tags", false).unwrap();
    assert_eq!(h, 1);
    assert!(params.is_empty());
    let (h, params) = cmds.execute("?tag rules", false).unwrap();
    assert_eq!(h, 2);
    assert_eq!(param(&params, "key"), Some("rules"));
    let (h, params) = cmds.execute("?tags create rules Be kind to each other", false).unwrap();
    assert_eq!(h, 3);
    assert_eq!(param(&params, "key"), Some("rules"));
    assert_eq!(param(&params, "value"), Some("Be kind to each other"));
}

#[test]
fn own_and_unprefixed_messages_are_not_commands() {
    let mut cmds: Commands<u32> = Commands::new();
    cmds.add("?tags", 1);
    assert!(cmds.execute("?tags", true).is_none());
    assert!(cmds.execute("tags", false).is_none());
    assert!(cmds.execute("?tagsx", false).is_none());
    assert!(cmds.execute("", false).is_none());
}

#[test]
fn repeated_spaces_separate_words() {
    let mut cmds: Commands<u32> = Commands::new();
    cmds.add("?ban {user} {hours} reason...", 7);
    let (h, params) = cmds.execute("?ban  <@123>  24 spam and abuse", false).unwrap();
    assert_eq!(h, 7);
    assert_eq!(param(&params, "user"), Some("<@123>"));
    assert_eq!(param(&params, "hours"), Some("24"));
    assert_eq!(param(&params, "reason"), Some("spam and abuse"));
    assert!(cmds.execute("?ban <@123> 24", false).is_none());
}

#[test]
fn a_newline_separates_words() {
    let mut cmds: Commands<u32> = Commands::new();
    cmds.add("?tag {key}", 2);
    let (h, params) = cmds.execute("?tag\nrules", false).unwrap();
    assert_eq!(h, 2);
    assert_eq!(param(&params, "key"), Some("rules"));
}

#[test]
fn patterns_that_begin_alike_share_states() {
    let mut cmds: Commands<u32> = Commands::new();
    cmds.add("?play mode={} edition={} channel={} warn={} ```\ncode``` ...", 6);
    cmds.add("?play code...", 8);
    let (h, params) = cmds.execute("?play ```\nfn main() {}```", false).unwrap();
    assert_eq!(h, 6);
    assert_eq!(param(&params, "code"), Some("fn main() {}"));
    let (h, params) = cmds.execute("?play fn main() {}", false).unwrap();
    assert_eq!(h, 8);
    assert_eq!(param(&params, "code"), Some("fn main() {}"));
}

#[test]
fn help_entries_answer_help_messages() {
    let mut cmds: Commands<u32> = Commands::new();
    cmds.add("?tags", 1);
    cmds.help("?tags", "A key value store", 9);
    let (h, params) = cmds.execute("?help tags", false).unwrap();
    assert_eq!(h, 9);
    assert!(params.is_empty());
    assert!(cmds.execute("?help", false).is_none());
}

#[test]
fn unnamed_rest_accepts_anything_after_the_command() {
    let mut cmds: Commands<u32> = Commands::new();
    cmds.add("?play code...", 4);
    cmds.add("?eval `code` ...", 5);
    let (h, params) = cmds.execute("?eval `1 + 1`", false).unwrap();
    assert_eq!(h, 5);
    assert_eq!(param(&params, "code"), Some("1 + 1"));
    let (h, _) = cmds.execute("?eval `1 + 1` trailing words", false).unwrap();
    assert_eq!(h, 5);
}

#[test]
fn options_and_fenced_code_are_captured() {
    let mut cmds: Commands<u32> = Commands::new();
    cmds.add("?play mode={} edition={} channel={} warn={} ```\ncode``` ...", 6);
    let (h, params) = cmds.execute("?play ```\nfn main() {}\n```", false).unwrap();
    assert_eq!(h, 6);
    assert_eq!(param(&params, "code"), Some("fn main() {}\n"));
    assert_eq!(param(&params, "mode"), None);
    let (h, params) = cmds
        .execute("?play mode=release channel=\"beta\" ```rust\nfn main() {}```", false)
        .unwrap();
    assert_eq!(h, 6);
    assert_eq!(param(&params, "mode"), Some("release"));
    assert_eq!(param(&params, "channel"), Some("beta"));
    assert_eq!(param(&params, "code"), Some("fn main() {}"));
}

#[test]
fn words_may_be_separated_by_runs_of_blanks() {
    let mut cmds: Commands<u8> = Commands::new();
    cmds.add("?tag {key}", 1);
    let (h, params) = cmds.execute("?tag   rules", false).unwrap();
    assert_eq!(h, 1);
    assert_eq!(param(&params, "key"), Some("rules"));
    assert_eq!(cmds.execute("?tag\nrules", false).map(|(h, _)| h), Some(1));
    assert!(cmds.execute("?tag", false).is_none());
}

#[test]
fn options_come_in_any_order_repeated_or_not_at_all() {
    let mut cmds: Commands<u8> = Commands::new();
    cmds.add("?run mode={} edition={}", 7);
    assert_eq!(cmds.execute("?run", false).map(|(h, _)| h), Some(7));
    let (_, params) = cmds.execute("?run edition=2018 mode=release", false).unwrap();
    assert_eq!(param(&params, "edition"), Some("2018"));
    assert_eq!(param(&params, "mode"), Some("release"));
    let (_, params) = cmds.execute("?run mode=\"a b\"", false).unwrap();
    assert_eq!(param(&params, "mode"), Some("a b"));
    assert_eq!(cmds.execute("?run mode=debug  mode=release", false).map(|(h, _)| h), Some(7));
    assert!(cmds.execute("?run other=1", false).is_none());
}

#[test]
fn code_segments_hold_the_code() {
    let mut cmds: Commands<u8> = Commands::new();
    cmds.add("?one `code`", 1);
    cmds.add("?three ```code```", 3);
    cmds.add("?fenced ```\ncode```", 4);
    let (h, params) = cmds.execute("?one `1 + 1`", false).unwrap();
    assert_eq!(h, 1);
    assert_eq!(param(&params, "code"), Some("1 + 1"));
    assert_eq!(cmds.execute("?three ```x```", false).map(|(h, _)| h), Some(3));
    assert_eq!(cmds.execute("?fenced ```rust\nfn main() {}```", false).map(|(h, _)| h), Some(4));
    assert_eq!(cmds.execute("?fenced ```\nfn main() {}```", false).map(|(h, _)| h), Some(4));
    assert!(cmds.execute("?one ``", false).is_none());
}

#[test]
fn help_entries_take_runs_of_blanks() {
    let mut cmds: Commands<u8> = Commands::new();
    cmds.help("?tags", "A key value store", 9);
    assert_eq!(cmds.execute("?help tags", false).map(|(h, _)| h), Some(9));
    assert_eq!(cmds.execute("?help \n tags", false).map(|(h, _)| h), Some(9));
}

#[test]
fn a_bare_rest_marker_allows_any_ending() {
    let mut cmds: Commands<u8> = Commands::new();
    cmds.add("?x {name} ...", 5);
    assert_eq!(cmds.execute("?x ferris", false).map(|(h, _)| h), Some(5));
    assert_eq!(cmds.execute("?x ferris and friends", false).map(|(h, _)| h), Some(5));
    assert!(cmds.execute("?x", false).is_none());
}

#[test]
fn a_single_parameter_records_exactly_its_text() {
    let mut cmds: Commands<u8> = Commands::new();
    cmds.add("?say text...", 2);
    cmds.add("?tag {key}", 1);
    let (h, params) = cmds.execute("?say  hello\nworld", false).unwrap();
    assert_eq!(h, 2);
    assert_eq!(params, vec![("text".to_string(), "hello\nworld".to_string())]);
    let (h, params) = cmds.execute("?tag rules", false).unwrap();
    assert_eq!(h, 1);
    assert_eq!(params, vec![("key".to_string(), "rules".to_string())]);
    cmds.help("?tags", "A key value store", 3);
    let (h, params) = cmds.execute("?help tags", false).unwrap();
    assert_eq!(h, 3);
    assert!(params.is_empty());
}

#[test]
fn a_word_and_a_rest_are_recorded_under_their_names() {
    let mut cmds: Commands<u8> = Commands::new();
    cmds.add("?note {key} text...", 5);
    let (h, mut params) = cmds.execute("?note  todo  buy milk", false).unwrap();
    assert_eq!(h, 5);
    params.sort();
    assert_eq!(
        params,
        vec![("key".to_string(), "todo".to_string()), ("text".to_string(), "buy milk".to_string())]
    );
}

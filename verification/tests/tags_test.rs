use discord_mods_bot::tags::{all_tags_reply, tag_change_outcome, tag_reply, TagChange, TagOutcome};

#[test]
fn change_outcomes() {
    match tag_change_outcome(TagChange::Delete, 0) {
        TagOutcome::Reply(t) => assert_eq!(t, "A database error occurred when deleting the tag."),
        TagOutcome::Confirm => panic!("expected a reply"),
    }
    match tag_change_outcome(TagChange::Create, 0) {
        TagOutcome::Reply(t) => assert_eq!(t, "A database error occurred when creating the tag."),
        TagOutcome::Confirm => panic!("expected a reply"),
    }
    match tag_change_outcome(TagChange::Update, 0) {
        TagOutcome::Reply(t) => assert_eq!(t, "A database error occurred when updating the tag."),
        TagOutcome::Confirm => panic!("expected a reply"),
    }
    assert!(matches!(tag_change_outcome(TagChange::Create, 1), TagOutcome::Confirm));
    assert!(matches!(tag_change_outcome(TagChange::Delete, 3), TagOutcome::Confirm));
}

#[test]
fn single_tag_reply() {
    assert_eq!(tag_reply("rules", Some("Be kind.")), "Be kind.");
    assert_eq!(tag_reply("rules", None), "Tag not found for `rules`");
}

#[test]
fn tag_list_reply() {
    assert_eq!(all_tags_reply(&[]), "No tags found");
    let keys = vec!["a".to_string(), "bb".to_string()];
    assert_eq!(all_tags_reply(&keys), "All tags: ```\na\nbb\n```");
}

#[test]
fn tag_list_stops_near_the_message_limit() {
    let big = "k".repeat(1979);
    let keys = vec![big.clone(), "x".to_string(), "y".to_string()];
    // 1979 bytes and a newline reach 1980, so nothing more is added.
    assert_eq!(all_tags_reply(&keys), format!("All tags: ```\n{}\n```", big));
    let smaller = "k".repeat(1978);
    let keys = vec![smaller.clone(), "x".to_string(), "y".to_string()];
    assert_eq!(all_tags_reply(&keys), format!("All tags: ```\n{}\nx\n```", smaller));
}

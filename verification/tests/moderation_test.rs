use discord_mods_bot::api::{
    check_permission, has_role, kick_target, main_menu, slow_mode_plan, MenuEntry, PermissionError, SlowModeError,
    UserParamError,
};
use discord_mods_bot::ban::{
    ban_help, ban_message, ban_seconds, temp_ban_plan, unban_plan, BanError, ExpiredBan,
};
use discord_mods_bot::parse::{int_parse_error_text, is_parsable_mention, IntParseError};
use discord_mods_bot::welcome::{talk_role_action, welcome_channel, welcome_record, TalkRoleAction, WelcomeError};

#[test]
fn member_roles() {
    assert_eq!(has_role(Some(&[1u64, 2, 3][..]), 2), Ok(true));
    assert_eq!(has_role(Some(&[1u64, 2, 3][..]), 4), Ok(false));
    assert_eq!(has_role(None, 2), Err(PermissionError::MemberUnavailable));
    assert_eq!(PermissionError::MemberUnavailable.text(), "Unable to fetch member");
}

#[test]
fn permission_checks() {
    assert_eq!(check_permission(None, Some(&[1u64][..])), Ok(false));
    assert_eq!(check_permission(None, None), Ok(false));
    assert_eq!(check_permission(Some("1"), Some(&[1u64, 5][..])), Ok(true));
    assert_eq!(check_permission(Some("7"), Some(&[1u64, 5][..])), Ok(false));
    assert_eq!(check_permission(Some("7"), None), Err(PermissionError::MemberUnavailable));
    assert_eq!(
        check_permission(Some("mod"), Some(&[1u64][..])),
        Err(PermissionError::InvalidRoleId(IntParseError::InvalidDigit))
    );
    assert_eq!(
        PermissionError::InvalidRoleId(IntParseError::InvalidDigit).text(),
        "invalid digit found in string"
    );
}

#[test]
fn menu_text() {
    let entries = vec![
        MenuEntry { command: "?tags".to_string(), description: "A key value store".to_string(), authorized: true },
        MenuEntry { command: "?ban".to_string(), description: "Ban".to_string(), authorized: false },
        MenuEntry { command: "?averylongcommand".to_string(), description: "Long".to_string(), authorized: true },
    ];
    assert_eq!(
        main_menu(&entries),
        "Commands:\n\t?tags       A key value store\n\t?averylongcommandLong\n\t?help       This menu\n\nType ?help command for more info on a command.\n\nAdditional Info:\n\tYou can edit your message to the bot and the bot will edit its response."
    );
}

#[test]
fn slow_mode_parameters() {
    assert_eq!(slow_mode_plan(Some("10"), Some("<#42>")), Ok((42, 10)));
    assert_eq!(slow_mode_plan(Some("0"), Some("42")), Ok((42, 0)));
    assert_eq!(slow_mode_plan(None, Some("42")), Err(SlowModeError::MissingSeconds));
    assert_eq!(slow_mode_plan(Some("ten"), Some("42")), Err(SlowModeError::InvalidSeconds(IntParseError::InvalidDigit)));
    assert_eq!(slow_mode_plan(Some(""), Some("42")), Err(SlowModeError::InvalidSeconds(IntParseError::Empty)));
    assert_eq!(slow_mode_plan(Some("10"), None), Err(SlowModeError::MissingChannel));
    assert_eq!(slow_mode_plan(Some("10"), Some("#general")), Err(SlowModeError::InvalidChannel));
    assert_eq!(SlowModeError::MissingSeconds.text(), "unable to retrieve seconds param");
    assert_eq!(SlowModeError::MissingChannel.text(), "unable to retrieve channel param");
    assert_eq!(SlowModeError::InvalidChannel.text(), "invalid id format");
    assert_eq!(SlowModeError::InvalidSeconds(IntParseError::Empty).text(), "cannot parse integer from empty string");
}

#[test]
fn kick_target_from_mention() {
    assert_eq!(kick_target(Some("<@123>")), Ok(123));
    assert_eq!(kick_target(Some("<@!456>")), Ok(456));
    assert_eq!(kick_target(Some("someone")), Err(UserParamError::InvalidUser));
    assert_eq!(kick_target(None), Err(UserParamError::MissingUser));
    assert_eq!(UserParamError::MissingUser.text(), "unable to retrieve user param");
    assert_eq!(UserParamError::InvalidUser.text(), "unable to retrieve user id");
}

#[test]
fn mentions_that_can_be_read() {
    assert!(is_parsable_mention("<@123>"));
    assert!(is_parsable_mention("abc"));
    assert!(is_parsable_mention("é"));
    assert!(!is_parsable_mention("<@é"));
    assert!(!is_parsable_mention("<@1é"));
}

#[test]
fn ban_parameters() {
    let plan = temp_ban_plan(Some("<@99>"), Some("24"), Some("spam")).unwrap();
    assert_eq!(plan.user_id, 99);
    assert_eq!(plan.hours, 24);
    assert_eq!(plan.reason, "spam");
    assert_eq!(temp_ban_plan(None, Some("24"), Some("spam")).err(), Some(BanError::User(UserParamError::MissingUser)));
    assert_eq!(temp_ban_plan(Some("x"), Some("24"), Some("spam")).err(), Some(BanError::User(UserParamError::InvalidUser)));
    assert_eq!(temp_ban_plan(Some("<@99>"), None, Some("spam")).err(), Some(BanError::MissingHours));
    assert_eq!(
        temp_ban_plan(Some("<@99>"), Some("a day"), Some("spam")).err(),
        Some(BanError::InvalidHours(IntParseError::InvalidDigit))
    );
    assert_eq!(
        temp_ban_plan(Some("<@99>"), Some("99999999999999999999"), Some("spam")).err(),
        Some(BanError::InvalidHours(IntParseError::PosOverflow))
    );
    assert_eq!(temp_ban_plan(Some("<@99>"), Some("24"), None).err(), Some(BanError::MissingReason));
}

#[test]
fn ban_error_texts_and_replies() {
    assert_eq!(BanError::MissingHours.text(), "unable to retrieve hours param");
    assert_eq!(BanError::MissingReason.text(), "unable to retrieve reason param");
    assert_eq!(BanError::User(UserParamError::InvalidUser).text(), "unable to retrieve user id");
    assert_eq!(
        BanError::InvalidHours(IntParseError::InvalidDigit).reply(),
        Some("invalid digit found in string".to_string())
    );
    assert_eq!(BanError::MissingReason.reply(), None);
    assert_eq!(int_parse_error_text(IntParseError::PosOverflow), "number too large to fit in target type");
}

#[test]
fn ban_texts() {
    assert_eq!(
        ban_message("spam", 24),
        "You have been banned from The Rust Programming Language discord server for spam. The ban will expire in 24 hours."
    );
    let help = ban_help();
    assert!(help.starts_with("\nBan a user for a temporary amount of time\n```\n?ban {user} {hours} reason...\n```\n"));
    assert!(help.contains(&ban_message("violating the code of conduct", 24)));
    assert_eq!(ban_seconds(24), 86400);
    assert_eq!(ban_seconds(0), 0);
}

#[test]
fn expired_bans_to_lift() {
    let rows = vec![
        ExpiredBan { user_id: "1".to_string(), guild_id: "10".to_string() },
        ExpiredBan { user_id: "2".to_string(), guild_id: "20".to_string() },
    ];
    let (unbans, err) = unban_plan(&rows);
    assert_eq!(err, None);
    assert_eq!(unbans.len(), 2);
    assert_eq!((unbans[0].guild_id, unbans[0].user_id), (10, 1));
    assert_eq!((unbans[1].guild_id, unbans[1].user_id), (20, 2));
    let bad = vec![
        ExpiredBan { user_id: "1".to_string(), guild_id: "10".to_string() },
        ExpiredBan { user_id: "2".to_string(), guild_id: "guild".to_string() },
        ExpiredBan { user_id: "3".to_string(), guild_id: "30".to_string() },
    ];
    let (unbans, err) = unban_plan(&bad);
    assert_eq!(err, Some(IntParseError::InvalidDigit));
    assert_eq!(unbans.len(), 1);
    assert_eq!(unbans[0].user_id, 1);
}

#[test]
fn welcome_channel_parameter() {
    assert_eq!(welcome_channel(Some("<#5>")), Ok(5));
    assert_eq!(welcome_channel(Some("5")), Ok(5));
    assert_eq!(welcome_channel(None), Err(WelcomeError::MissingChannel));
    assert_eq!(welcome_channel(Some("welcome")), Err(WelcomeError::InvalidChannel));
    assert_eq!(WelcomeError::InvalidChannel.text(), "invalid id format");
}

#[test]
fn welcome_record_is_decimal() {
    let (r, bot) = welcome_record(111, 222, 333);
    assert_eq!(r.message_id, "111");
    assert_eq!(r.channel_id, "222");
    assert_eq!(bot, "333");
}

#[test]
fn check_mark_on_the_welcome_message_gives_the_role() {
    let (r, _) = welcome_record(111, 222, 333);
    match talk_role_action(Some(&r), 111, 222, Some("\u{2705}"), Some("77"), Some(444), Some("333")) {
        TalkRoleAction::AssignRole { user_id, role, remove_reaction } => {
            assert_eq!(user_id, 444);
            assert_eq!(role, Ok(77));
            assert!(remove_reaction);
        },
        _ => panic!("expected the role to be assigned"),
    }
    match talk_role_action(Some(&r), 111, 222, Some("\u{2705}"), Some("77"), Some(333), Some("333")) {
        TalkRoleAction::AssignRole { user_id, remove_reaction, .. } => {
            assert_eq!(user_id, 333);
            assert!(!remove_reaction);
        },
        _ => panic!("expected the role to be assigned"),
    }
    match talk_role_action(Some(&r), 111, 222, Some("\u{2705}"), Some("talk"), Some(444), None) {
        TalkRoleAction::AssignRole { role, remove_reaction, .. } => {
            assert_eq!(role, Err(IntParseError::InvalidDigit));
            assert!(!remove_reaction);
        },
        _ => panic!("expected the role to be assigned"),
    }
}

#[test]
fn other_reactions() {
    let (r, _) = welcome_record(111, 222, 333);
    assert!(matches!(
        talk_role_action(Some(&r), 111, 222, Some("👍"), Some("77"), Some(444), Some("333")),
        TalkRoleAction::RemoveReaction
    ));
    assert!(matches!(
        talk_role_action(Some(&r), 111, 222, None, Some("77"), Some(444), Some("333")),
        TalkRoleAction::RemoveReaction
    ));
    assert!(matches!(
        talk_role_action(Some(&r), 112, 222, Some("\u{2705}"), Some("77"), Some(444), Some("333")),
        TalkRoleAction::Ignore
    ));
    assert!(matches!(
        talk_role_action(Some(&r), 111, 223, Some("\u{2705}"), Some("77"), Some(444), Some("333")),
        TalkRoleAction::Ignore
    ));
    assert!(matches!(
        talk_role_action(None, 111, 222, Some("\u{2705}"), Some("77"), Some(444), Some("333")),
        TalkRoleAction::Ignore
    ));
    assert!(matches!(
        talk_role_action(Some(&r), 111, 222, Some("\u{2705}"), None, Some(444), Some("333")),
        TalkRoleAction::Ignore
    ));
    assert!(matches!(
        talk_role_action(Some(&r), 111, 222, Some("\u{2705}"), Some("77"), None, Some("333")),
        TalkRoleAction::Ignore
    ));
}

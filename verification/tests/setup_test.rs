use discord_mods_bot::command::{authorized, may_run, Command, CommandKind, Guard, Handler};
use discord_mods_bot::setup::{build_commands, roles_to_store, Config, ConfigError};

fn config(tags: bool, crates: bool, eval: bool, wg: Option<&str>) -> Config {
    Config {
        tags,
        crates,
        eval,
        discord_token: "SECRET-REDACTED".to_string(),
        mod_id: "1".to_string(),
        talk_id: "2".to_string(),
        wg_and_teams_id: wg.map(|s| s.to_string()),
    }
}

#[test]
fn command_constructors() {
    let c = Command::new(Handler::TagGet);
    assert_eq!(c.kind, CommandKind::Base);
    assert_eq!(c.guard, Guard::Anyone);
    let p = Command::new_with_auth(Handler::Ban, Guard::Moderator);
    assert_eq!(p.kind, CommandKind::Protected);
    assert_eq!(p.guard, Guard::Moderator);
    assert_eq!(p.handler, Handler::Ban);
    let h = Command::help();
    assert_eq!(h.kind, CommandKind::Help);
    assert_eq!(h.handler, Handler::Nothing);
}

#[test]
fn only_a_yes_runs_a_command() {
    assert!(authorized(Some(true)));
    assert!(!authorized(Some(false)));
    assert!(!authorized(None));
}

#[test]
fn stored_roles() {
    let roles = roles_to_store(&config(false, false, true, None)).unwrap();
    assert_eq!(roles, vec![("mod".to_string(), "1".to_string()), ("talk".to_string(), "2".to_string())]);
    let roles = roles_to_store(&config(true, false, false, Some("3"))).unwrap();
    assert_eq!(roles.len(), 3);
    assert_eq!(roles[2], ("wg_and_teams".to_string(), "3".to_string()));
    assert_eq!(roles_to_store(&config(false, true, false, None)).err(), Some(ConfigError::MissingWgAndTeamsRole));
}

#[test]
fn command_table_for_all_features() {
    let cmds = build_commands(&config(true, true, true, Some("3")));
    let (c, _) = cmds.execute("?tags", false).unwrap();
    assert_eq!(c.handler, Handler::TagList);
    let (c, params) = cmds.execute("?tag rules", false).unwrap();
    assert_eq!(c.handler, Handler::TagGet);
    assert_eq!(params, vec![("key".to_string(), "rules".to_string())]);
    let (c, _) = cmds.execute("?tags delete rules", false).unwrap();
    assert_eq!(c, Command::new_with_auth(Handler::TagDelete, Guard::WgAndTeams));
    let (c, params) = cmds.execute("?tags create rules Be kind.", false).unwrap();
    assert_eq!(c, Command::new_with_auth(Handler::TagCreate, Guard::WgAndTeams));
    assert_eq!(
        params,
        vec![("key".to_string(), "rules".to_string()), ("value".to_string(), "Be kind.".to_string())]
    );
    let (c, _) = cmds.execute("?help tags", false).unwrap();
    assert_eq!(c.handler, Handler::TagHelp);
    let (c, _) = cmds.execute("?help", false).unwrap();
    assert_eq!(c, Command::help());
    let (c, _) = cmds.execute("?crate serde json", false).unwrap();
    assert_eq!(c.handler, Handler::CrateSearch);
    let (c, _) = cmds.execute("?docs std::vec", false).unwrap();
    assert_eq!(c.handler, Handler::DocSearch);
    let (c, _) = cmds.execute("?play ```\nfn main() {}\n```", false).unwrap();
    assert_eq!(c.handler, Handler::PlayRun);
    let (c, _) = cmds.execute("?play fn main() {}", false).unwrap();
    assert_eq!(c.handler, Handler::PlayMissingCode);
    let (c, params) = cmds.execute("?eval `1 + 1`", false).unwrap();
    assert_eq!(c.handler, Handler::EvalRun);
    assert_eq!(params, vec![("code".to_string(), "1 + 1".to_string())]);
    let (c, _) = cmds.execute("?eval 1 + 1", false).unwrap();
    assert_eq!(c.handler, Handler::EvalMissingCode);
    let (c, _) = cmds.execute("?slowmode #general 10", false).unwrap();
    assert_eq!(c.handler, Handler::SlowMode);
    let (c, _) = cmds.execute("?kick <@1>", false).unwrap();
    assert_eq!(c.handler, Handler::Kick);
    let (c, _) = cmds.execute("?ban <@1> 2 spam", false).unwrap();
    assert_eq!(c.handler, Handler::Ban);
    let (c, _) = cmds.execute("?CoC #welcome", false).unwrap();
    assert_eq!(c.handler, Handler::WelcomePost);
    let (c, _) = cmds.execute("?help CoC", false).unwrap();
    assert_eq!(c.handler, Handler::WelcomeHelp);
}

#[test]
fn command_table_without_optional_features() {
    let cmds = build_commands(&config(false, false, false, None));
    assert!(cmds.execute("?tags", false).is_none());
    assert!(cmds.execute("?crate serde", false).is_none());
    assert!(cmds.execute("?eval `1`", false).is_none());
    assert!(cmds.execute("?kick <@1>", false).is_some());
}

#[test]
fn open_commands_always_run_and_guarded_ones_need_a_yes() {
    assert!(may_run(Guard::Anyone, None));
    assert!(may_run(Guard::Anyone, Some(false)));
    assert!(may_run(Guard::Moderator, Some(true)));
    assert!(!may_run(Guard::Moderator, Some(false)));
    assert!(!may_run(Guard::WgAndTeams, None));
}

#[test]
fn guards_follow_the_documented_access_rules() {
    let cmds = build_commands(&config(true, true, true, Some("3")));
    for (msg, guard) in [
        ("?tags delete rules", Guard::WgAndTeams),
        ("?tags create rules x", Guard::WgAndTeams),
        ("?tags update rules x", Guard::WgAndTeams),
        ("?tag rules", Guard::Anyone),
        ("?tags", Guard::Anyone),
        ("?kick <@1>", Guard::Moderator),
        ("?ban <@1> 2 spam", Guard::Moderator),
        ("?slowmode #general 10", Guard::Moderator),
        ("?CoC #welcome", Guard::Moderator),
        ("?help ban", Guard::Moderator),
        ("?help tags", Guard::Anyone),
    ] {
        let (c, _) = cmds.execute(msg, false).unwrap();
        assert_eq!(c.guard, guard, "{}", msg);
    }
}

//! Start-up: the roles stored from the configuration, and the command
//! table for the features the configuration turns on.

use vstd::prelude::*;
use crate::command::{Command, CommandKind, Guard, Handler};
use crate::commands::{
    Commands, pattern_ok, pattern_valid, lemma_simple_pattern_ok, simple_word, fills, help_message, join_words, plain_text, simple_prefix, fills_all, no_space,
    lemma_plain_pattern, lemma_literal_kind, lemma_param_kind, lemma_rest_kind, lemma_words_of, message_end, help_end, ends_like, rest_word, param_word, literal_word,
};
use crate::state_machine::{
    StateView, accepts, reads, lemma_reads_accepts, law_extension_keeps_messages, extends, lemma_extends_refl,
    lemma_extends_trans, lemma_reads_extends, kept_state,
};
use crate::strings::{is_ascii_text, all_ascii, words};

verus! {

/// The configuration, read from the environment.
pub struct Config {
    pub tags: bool,
    pub crates: bool,
    pub eval: bool,
    pub discord_token: String,
    pub mod_id: String,
    pub talk_id: String,
    pub wg_and_teams_id: Option<String>,
}

/// Why the configuration cannot be used.
#[derive(Clone, Copy, PartialEq, Eq, Debug)]
pub enum ConfigError {
    /// Tags or crates are turned on, but no working groups and teams role
    /// is given.
    MissingWgAndTeamsRole,
}

impl ConfigError {
    /// The text of the error.
    pub fn text(&self) -> (r: String)
        ensures
            r@ == "missing env var WG_AND_TEAMS_ID: it is required when TAGS or CRATES is enabled"@,
    {
        "missing env var WG_AND_TEAMS_ID: it is required when TAGS or CRATES is enabled".to_owned()
    }
}

/// The views of some role names and ids.
pub open spec fn roles_view(v: Seq<(String, String)>) -> Seq<(Seq<char>, Seq<char>)> {
    Seq::new(v.len(), |i: int| (v[i].0@, v[i].1@))
}

/// The roles to store, by name and id: the moderator and talk roles, and,
/// when tags or crates are on, the working groups and teams role, which
/// must then be given.
pub fn roles_to_store(config: &Config) -> (r: Result<Vec<(String, String)>, ConfigError>)
    ensures
        (config.tags || config.crates) && config.wg_and_teams_id is None
            ==> r == Err::<Vec<(String, String)>, ConfigError>(ConfigError::MissingWgAndTeamsRole),
        !(config.tags || config.crates) ==> (r matches Ok(v) && roles_view(v@) == seq![
            ("mod"@, config.mod_id@),
            ("talk"@, config.talk_id@),
        ]),
        (config.tags || config.crates) && config.wg_and_teams_id is Some ==> (r matches Ok(v) && roles_view(v@) == seq![
            ("mod"@, config.mod_id@),
            ("talk"@, config.talk_id@),
            ("wg_and_teams"@, config.wg_and_teams_id.unwrap()@),
        ]),
{
    let mut roles: Vec<(String, String)> = Vec::new();
    roles.push(("mod".to_owned(), config.mod_id.clone()));
    roles.push(("talk".to_owned(), config.talk_id.clone()));
    if config.tags || config.crates {
        match &config.wg_and_teams_id {
            None => return Err(ConfigError::MissingWgAndTeamsRole),
            Some(id) => roles.push(("wg_and_teams".to_owned(), id.clone())),
        }
        proof {
            assert(roles_view(roles@) =~= seq![
                ("mod"@, config.mod_id@),
                ("talk"@, config.talk_id@),
                ("wg_and_teams"@, config.wg_and_teams_id.unwrap()@),
            ]);
        }
    } else {
        proof {
            assert(roles_view(roles@) =~= seq![("mod"@, config.mod_id@), ("talk"@, config.talk_id@)]);
        }
    }
    Ok(roles)
}

/// A message of two words.
pub open spec fn words2(a: Seq<char>, b: Seq<char>) -> Seq<Seq<char>> {
    seq![a, b]
}

/// A message of three words.
pub open spec fn words3(a: Seq<char>, b: Seq<char>, c: Seq<char>) -> Seq<Seq<char>> {
    seq![a, b, c]
}

/// A message of four words.
pub open spec fn words4(a: Seq<char>, b: Seq<char>, c: Seq<char>, d: Seq<char>) -> Seq<Seq<char>> {
    seq![a, b, c, d]
}

/// Every message that `a` recognises, `b` recognises too.
pub open spec fn keeps_messages(a: Seq<StateView>, b: Seq<StateView>) -> bool {
    forall|w: Seq<char>| #![trigger accepts(a, w)] #![trigger accepts(b, w)] accepts(a, w) ==> accepts(b, w)
}

/// The command that runs `h`, with the check the bot documents for it:
/// changing tags needs the working groups and teams role; slow mode,
/// kicks, bans, the welcome message and their help pages need a moderator;
/// the help menu is the help command; everything else is open to anyone.
pub open spec fn documented_command(h: Handler) -> Command {
    match h {
        Handler::TagDelete | Handler::TagCreate | Handler::TagUpdate =>
            Command { kind: CommandKind::Protected, guard: Guard::WgAndTeams, handler: h },
        Handler::SlowMode | Handler::SlowModeHelp | Handler::Kick | Handler::KickHelp
        | Handler::Ban | Handler::BanHelp | Handler::WelcomePost | Handler::WelcomeHelp =>
            Command { kind: CommandKind::Protected, guard: Guard::Moderator, handler: h },
        Handler::Nothing => Command { kind: CommandKind::Help, guard: Guard::Anyone, handler: h },
        _ => Command { kind: CommandKind::Base, guard: Guard::Anyone, handler: h },
    }
}

/// The handlers of the tag commands.
pub open spec fn tag_handlers() -> spec_fn(Handler) -> bool {
    |h: Handler| h == Handler::TagDelete || h == Handler::TagCreate || h == Handler::TagUpdate
        || h == Handler::TagGet || h == Handler::TagList || h == Handler::TagHelp
}

/// The handlers of the crate and documentation commands.
pub open spec fn crate_handlers() -> spec_fn(Handler) -> bool {
    |h: Handler| h == Handler::CrateSearch || h == Handler::CrateHelp || h == Handler::DocSearch
        || h == Handler::DocHelp
}

/// The handlers of the code-running commands.
pub open spec fn eval_handlers() -> spec_fn(Handler) -> bool {
    |h: Handler| h == Handler::PlayRun || h == Handler::PlayMissingCode || h == Handler::PlayHelp
        || h == Handler::EvalRun || h == Handler::EvalMissingCode || h == Handler::EvalHelp
}

/// The handlers of the moderation commands.
pub open spec fn moderation_handlers() -> spec_fn(Handler) -> bool {
    |h: Handler| h == Handler::SlowMode || h == Handler::SlowModeHelp || h == Handler::Kick
        || h == Handler::KickHelp || h == Handler::Ban || h == Handler::BanHelp
        || h == Handler::WelcomePost || h == Handler::WelcomeHelp
}

/// Whether the feature that `h` belongs to is on: tags, crates and code
/// running each have a switch; moderation and the help menu are always on.
pub open spec fn handler_enabled(tags: bool, crates: bool, eval: bool, h: Handler) -> bool {
    &&& tag_handlers()(h) ==> tags
    &&& crate_handlers()(h) ==> crates
    &&& eval_handlers()(h) ==> eval
}

/// Every entry of `b` is the entry of `a`, or the command `command`.
pub open spec fn keeps_or(a: Map<usize, Command>, b: Map<usize, Command>, command: Command) -> bool {
    forall|k: usize| #[trigger] b.contains_key(k) ==> (a.contains_key(k) && b[k] == a[k]) || b[k] == command
}

/// Every entry of `b` is the entry of `a`, or the documented command of a
/// handler that `p` holds of.
pub open spec fn adds_only(a: Map<usize, Command>, b: Map<usize, Command>, p: spec_fn(Handler) -> bool) -> bool {
    forall|k: usize| #[trigger] b.contains_key(k) ==> (a.contains_key(k) && b[k] == a[k])
        || (b[k] == documented_command(b[k].handler) && p(b[k].handler))
}

proof fn lemma_adds_refl(a: Map<usize, Command>, p: spec_fn(Handler) -> bool)
    ensures
        adds_only(a, a, p),
{
}

/// One more documented command keeps `adds_only`.
proof fn lemma_adds_step(
    a: Map<usize, Command>,
    b: Map<usize, Command>,
    c: Map<usize, Command>,
    p: spec_fn(Handler) -> bool,
    command: Command,
)
    requires
        adds_only(a, b, p),
        keeps_or(b, c, command),
        command == documented_command(command.handler),
        p(command.handler),
    ensures
        adds_only(a, c, p),
{
    assert forall|k: usize| #[trigger] c.contains_key(k) implies (a.contains_key(k) && c[k] == a[k])
        || (c[k] == documented_command(c[k].handler) && p(c[k].handler)) by {
        if c[k] != command {
            assert(b.contains_key(k));
        }
    }
}

/// `adds_only` composes, and a weaker predicate keeps it.
proof fn lemma_adds_trans(
    a: Map<usize, Command>,
    b: Map<usize, Command>,
    c: Map<usize, Command>,
    p: spec_fn(Handler) -> bool,
    q: spec_fn(Handler) -> bool,
    r: spec_fn(Handler) -> bool,
)
    requires
        adds_only(a, b, p),
        adds_only(b, c, q),
        forall|h: Handler| p(h) ==> #[trigger] r(h),
        forall|h: Handler| q(h) ==> #[trigger] r(h),
    ensures
        adds_only(a, c, r),
{
    assert forall|k: usize| #[trigger] c.contains_key(k) implies (a.contains_key(k) && c[k] == a[k])
        || (c[k] == documented_command(c[k].handler) && r(c[k].handler)) by {
        if c.contains_key(k) && b.contains_key(k) && c[k] == b[k] {
            if !(a.contains_key(k) && b[k] == a[k]) {
                assert(p(b[k].handler));
            }
        } else {
            assert(q(c[k].handler));
        }
    }
}

/// Adds the pattern `pattern` for `command` when it is one that
/// `Commands::add` compiles.
fn register(cmds: &mut Commands<Command>, pattern: &str, command: Command)
    ensures
        keeps_or(old(cmds).handlers(), final(cmds).handlers(), command),
        keeps_messages(old(cmds).machine(), final(cmds).machine()),
        extends(old(cmds).machine(), final(cmds).machine()),
        pattern_ok(pattern@) ==> forall|s: int| 0 <= s < final(cmds).machine().len() && #[trigger] final(cmds).machine()[s].is_final
            ==> final(cmds).handlers().contains_key(s as usize),
        pattern_ok(pattern@) && simple_prefix(words(pattern@), words(pattern@).len() as int) ==> forall|vs: Seq<Seq<char>>|
            #[trigger] fills_all(words(pattern@), vs, words(pattern@).len() as int)
                ==> accepts(final(cmds).machine(), join_words(vs)),
        pattern_ok(pattern@) && simple_prefix(words(pattern@), words(pattern@).len() as int)
            && words(pattern@).len() >= 1 ==> exists|r: usize| #[trigger] message_end(old(cmds).handlers(),
                final(cmds).machine(), final(cmds).handlers(), words(pattern@), r, command),
{
    let ghost before = cmds.machine();
    proof { lemma_extends_refl(before); }
    if pattern_valid(pattern) {
        cmds.add(pattern, command);
        proof {
            assert forall|w: Seq<char>| #[trigger] accepts(before, w) implies accepts(cmds.machine(), w) by {
                law_extension_keeps_messages(before, cmds.machine(), w);
            }
            let ws = words(pattern@);
            let n = ws.len() as int;
            if simple_prefix(ws, n) {
                let r = choose|r: usize|
                    (r as int) < cmds.machine().len() && #[trigger] cmds.machine()[r as int].is_final
                        && cmds.handlers()[r] == command
                        && forall|vs: Seq<Seq<char>>| #[trigger] fills_all(ws, vs, n)
                            ==> reads(cmds.machine(), 0, join_words(vs), r);
                assert forall|vs: Seq<Seq<char>>| #[trigger] fills_all(ws, vs, n)
                    implies accepts(cmds.machine(), join_words(vs)) by {
                    lemma_reads_accepts(cmds.machine(), join_words(vs), r);
                }
            }
        }
    }
}

/// Adds the help entry `?help` and `cmd` without its `?` for `command`.
fn register_help(cmds: &mut Commands<Command>, cmd: &str, desc: &str, command: Command)
    ensures
        keeps_or(old(cmds).handlers(), final(cmds).handlers(), command),
        keeps_messages(old(cmds).machine(), final(cmds).machine()),
        extends(old(cmds).machine(), final(cmds).machine()),
        cmd@.len() >= 1 && all_ascii(cmd@) ==> accepts(final(cmds).machine(), help_message(cmd@)),
        cmd@.len() >= 2 && all_ascii(cmd@) ==> exists|r: usize| #[trigger] help_end(old(cmds).handlers(),
            final(cmds).machine(), final(cmds).handlers(), cmd@, r, command),
{
    let ghost before = cmds.machine();
    proof { lemma_extends_refl(before); }
    if cmd.is_empty() || !is_ascii_text(cmd) {
        return;
    }
    cmds.help(cmd, desc, command);
    proof {
        assert forall|w: Seq<char>| #[trigger] accepts(before, w) implies accepts(cmds.machine(), w) by {
            law_extension_keeps_messages(before, cmds.machine(), w);
        }
        let r = choose|r: usize|
            (r as int) < cmds.machine().len()
                && #[trigger] cmds.machine()[r as int].is_final
                && reads(cmds.machine(), 0, help_message(cmd@), r);
        lemma_reads_accepts(cmds.machine(), help_message(cmd@), r);
    }
}





/// `?tags delete {key}`.
#[verifier::rlimit(40)]
proof fn lemma_tag_delete_pattern()
    ensures
        pattern_ok("?tags delete {key}"@),
        simple_prefix(words("?tags delete {key}"@), 3),
        words("?tags delete {key}"@).len() == 3,
        forall|key: Seq<char>| key.len() > 0 && no_space(key)
            ==> #[trigger] fills_all(words("?tags delete {key}"@), words3("?tags"@, "delete"@, key), 3),
{
    let p = "?tags delete {key}"@;
    let a = "?tags"@;
    let b = "delete"@;
    let c = "{key}"@;
    assert(p =~= a + seq![' '] + (b + seq![' '] + c)) by { reveal_strlit("?tags delete {key}"); reveal_strlit("?tags"); reveal_strlit("delete"); reveal_strlit("{key}"); }
    assert(all_ascii(p)) by { reveal_strlit("?tags delete {key}"); }
    assert(a.len() > 0 && plain_text(a)) by { reveal_strlit("?tags"); }
    lemma_literal_kind(a);
    assert(b.len() > 0 && plain_text(b)) by { reveal_strlit("delete"); }
    lemma_literal_kind(b);
    assert(c.len() >= 2 && c[0] == '{' && c[c.len() - 1] == '}'
        && forall|i: int| 0 <= i < c.len() ==> #[trigger] c[i] != '=' && c[i] != ' ') by { reveal_strlit("{key}"); }
    lemma_param_kind(c);
    lemma_words_of(a, b, c, a);
    assert(words(p) == seq![a, b, c]);
    assert(simple_prefix(words(p), 3)) by {
        assert forall|j: int| 0 <= j < 3 implies simple_word(#[trigger] words(p)[j]) by {
            assert(words(p)[j] == seq![a, b, c][j]);
        }
    }
    lemma_simple_pattern_ok(p);
    assert forall|key: Seq<char>| key.len() > 0 && no_space(key)
        implies #[trigger] fills_all(words(p), words3(a, b, key), 3) by {
        let vs = words3(a, b, key);
        assert forall|j: int| 0 <= j < 3 implies #[trigger] fills(words(p)[j], vs[j]) by {
            if j == 0 { assert(fills(a, vs[0])); }
            if j == 1 { assert(fills(b, vs[1])); }
            if j == 2 { assert(fills(c, vs[2])); }
        }
    }
}

/// `?tags create {key} value...`.
#[verifier::rlimit(60)]
proof fn lemma_tag_create_pattern()
    ensures
        pattern_ok("?tags create {key} value..."@),
        simple_prefix(words("?tags create {key} value..."@), 4),
        words("?tags create {key} value..."@).len() == 4,
        forall|key: Seq<char>, value: Seq<char>| key.len() > 0 && no_space(key) && value.len() > 0
            ==> #[trigger] fills_all(words("?tags create {key} value..."@), words4("?tags"@, "create"@, key, value), 4),
{
    let p = "?tags create {key} value..."@;
    let a = "?tags"@;
    let b = "create"@;
    let c = "{key}"@;
    let d = "value..."@;
    assert(p =~= a + seq![' '] + (b + seq![' '] + (c + seq![' '] + d))) by { reveal_strlit("?tags create {key} value..."); reveal_strlit("?tags"); reveal_strlit("create"); reveal_strlit("{key}"); reveal_strlit("value..."); }
    assert(all_ascii(p)) by { reveal_strlit("?tags create {key} value..."); }
    assert(a.len() > 0 && plain_text(a)) by { reveal_strlit("?tags"); }
    lemma_literal_kind(a);
    assert(b.len() > 0 && plain_text(b)) by { reveal_strlit("create"); }
    lemma_literal_kind(b);
    assert(c.len() >= 2 && c[0] == '{' && c[c.len() - 1] == '}'
        && forall|i: int| 0 <= i < c.len() ==> #[trigger] c[i] != '=' && c[i] != ' ') by { reveal_strlit("{key}"); }
    lemma_param_kind(c);
    assert(d.len() > 3 && d[0] != '{' && d[d.len() - 3] == '.' && d[d.len() - 2] == '.' && d[d.len() - 1] == '.'
        && forall|i: int| 0 <= i < d.len() ==> #[trigger] d[i] != '=' && d[i] != ' ') by { reveal_strlit("value..."); }
    lemma_rest_kind(d);
    lemma_words_of(a, b, c, d);
    assert(words(p) == seq![a, b, c, d]);
    assert(simple_prefix(words(p), 4)) by {
        assert forall|j: int| 0 <= j < 4 implies simple_word(#[trigger] words(p)[j]) by {
            assert(words(p)[j] == seq![a, b, c, d][j]);
        }
    }
    lemma_simple_pattern_ok(p);
    assert forall|key: Seq<char>, value: Seq<char>| key.len() > 0 && no_space(key) && value.len() > 0
        implies #[trigger] fills_all(words(p), words4(a, b, key, value), 4) by {
        let vs = words4(a, b, key, value);
        assert forall|j: int| 0 <= j < 4 implies #[trigger] fills(words(p)[j], vs[j]) by {
            if j == 0 { assert(fills(a, vs[0])); }
            if j == 1 { assert(fills(b, vs[1])); }
            if j == 2 { assert(fills(c, vs[2])); }
            if j == 3 { assert(fills(d, vs[3])); }
        }
    }
}

/// `?tags update {key} value...`.
#[verifier::rlimit(60)]
proof fn lemma_tag_update_pattern()
    ensures
        pattern_ok("?tags update {key} value..."@),
        simple_prefix(words("?tags update {key} value..."@), 4),
        words("?tags update {key} value..."@).len() == 4,
        forall|key: Seq<char>, value: Seq<char>| key.len() > 0 && no_space(key) && value.len() > 0
            ==> #[trigger] fills_all(words("?tags update {key} value..."@), words4("?tags"@, "update"@, key, value), 4),
        rest_word(words("?tags update {key} value..."@).last()),
{
    let p = "?tags update {key} value..."@;
    let a = "?tags"@;
    let b = "update"@;
    let c = "{key}"@;
    let d = "value..."@;
    assert(p =~= a + seq![' '] + (b + seq![' '] + (c + seq![' '] + d))) by { reveal_strlit("?tags update {key} value..."); reveal_strlit("?tags"); reveal_strlit("update"); reveal_strlit("{key}"); reveal_strlit("value..."); }
    assert(all_ascii(p)) by { reveal_strlit("?tags update {key} value..."); }
    assert(a.len() > 0 && plain_text(a)) by { reveal_strlit("?tags"); }
    lemma_literal_kind(a);
    assert(b.len() > 0 && plain_text(b)) by { reveal_strlit("update"); }
    lemma_literal_kind(b);
    assert(c.len() >= 2 && c[0] == '{' && c[c.len() - 1] == '}'
        && forall|i: int| 0 <= i < c.len() ==> #[trigger] c[i] != '=' && c[i] != ' ') by { reveal_strlit("{key}"); }
    lemma_param_kind(c);
    assert(d.len() > 3 && d[0] != '{' && d[d.len() - 3] == '.' && d[d.len() - 2] == '.' && d[d.len() - 1] == '.'
        && forall|i: int| 0 <= i < d.len() ==> #[trigger] d[i] != '=' && d[i] != ' ') by { reveal_strlit("value..."); }
    lemma_rest_kind(d);
    lemma_words_of(a, b, c, d);
    assert(words(p) == seq![a, b, c, d]);
    assert(simple_prefix(words(p), 4)) by {
        assert forall|j: int| 0 <= j < 4 implies simple_word(#[trigger] words(p)[j]) by {
            assert(words(p)[j] == seq![a, b, c, d][j]);
        }
    }
    lemma_simple_pattern_ok(p);
    assert forall|key: Seq<char>, value: Seq<char>| key.len() > 0 && no_space(key) && value.len() > 0
        implies #[trigger] fills_all(words(p), words4(a, b, key, value), 4) by {
        let vs = words4(a, b, key, value);
        assert forall|j: int| 0 <= j < 4 implies #[trigger] fills(words(p)[j], vs[j]) by {
            if j == 0 { assert(fills(a, vs[0])); }
            if j == 1 { assert(fills(b, vs[1])); }
            if j == 2 { assert(fills(c, vs[2])); }
            if j == 3 { assert(fills(d, vs[3])); }
        }
    }
}

/// `?tag {key}`.
#[verifier::rlimit(40)]
proof fn lemma_tag_get_pattern()
    ensures
        pattern_ok("?tag {key}"@),
        simple_prefix(words("?tag {key}"@), 2),
        words("?tag {key}"@).len() == 2,
        forall|key: Seq<char>| key.len() > 0 && no_space(key)
            ==> #[trigger] fills_all(words("?tag {key}"@), words2("?tag"@, key), 2),
        param_word(words("?tag {key}"@).last()),
{
    let p = "?tag {key}"@;
    let a = "?tag"@;
    let b = "{key}"@;
    assert(p =~= a + seq![' '] + b) by { reveal_strlit("?tag {key}"); reveal_strlit("?tag"); reveal_strlit("{key}"); }
    assert(all_ascii(p)) by { reveal_strlit("?tag {key}"); }
    assert(a.len() > 0 && plain_text(a)) by { reveal_strlit("?tag"); }
    lemma_literal_kind(a);
    assert(b.len() >= 2 && b[0] == '{' && b[b.len() - 1] == '}'
        && forall|i: int| 0 <= i < b.len() ==> #[trigger] b[i] != '=' && b[i] != ' ') by { reveal_strlit("{key}"); }
    lemma_param_kind(b);
    lemma_words_of(a, b, a, a);
    assert(words(p) == seq![a, b]);
    assert(simple_prefix(words(p), 2)) by {
        assert forall|j: int| 0 <= j < 2 implies simple_word(#[trigger] words(p)[j]) by {
            assert(words(p)[j] == seq![a, b][j]);
        }
    }
    lemma_simple_pattern_ok(p);
    assert forall|key: Seq<char>| key.len() > 0 && no_space(key)
        implies #[trigger] fills_all(words(p), words2(a, key), 2) by {
        let vs = words2(a, key);
        assert forall|j: int| 0 <= j < 2 implies #[trigger] fills(words(p)[j], vs[j]) by {
            if j == 0 { assert(fills(a, vs[0])); }
            if j == 1 { assert(fills(b, vs[1])); }
        }
    }
}

/// `?crate query...`.
#[verifier::rlimit(40)]
proof fn lemma_crate_pattern()
    ensures
        pattern_ok("?crate query..."@),
        simple_prefix(words("?crate query..."@), 2),
        words("?crate query..."@).len() == 2,
        forall|query: Seq<char>| query.len() > 0
            ==> #[trigger] fills_all(words("?crate query..."@), words2("?crate"@, query), 2),
{
    let p = "?crate query..."@;
    let a = "?crate"@;
    let b = "query..."@;
    assert(p =~= a + seq![' '] + b) by { reveal_strlit("?crate query..."); reveal_strlit("?crate"); reveal_strlit("query..."); }
    assert(all_ascii(p)) by { reveal_strlit("?crate query..."); }
    assert(a.len() > 0 && plain_text(a)) by { reveal_strlit("?crate"); }
    lemma_literal_kind(a);
    assert(b.len() > 3 && b[0] != '{' && b[b.len() - 3] == '.' && b[b.len() - 2] == '.' && b[b.len() - 1] == '.'
        && forall|i: int| 0 <= i < b.len() ==> #[trigger] b[i] != '=' && b[i] != ' ') by { reveal_strlit("query..."); }
    lemma_rest_kind(b);
    lemma_words_of(a, b, a, a);
    assert(words(p) == seq![a, b]);
    assert(simple_prefix(words(p), 2)) by {
        assert forall|j: int| 0 <= j < 2 implies simple_word(#[trigger] words(p)[j]) by {
            assert(words(p)[j] == seq![a, b][j]);
        }
    }
    lemma_simple_pattern_ok(p);
    assert forall|query: Seq<char>| query.len() > 0
        implies #[trigger] fills_all(words(p), words2(a, query), 2) by {
        let vs = words2(a, query);
        assert forall|j: int| 0 <= j < 2 implies #[trigger] fills(words(p)[j], vs[j]) by {
            if j == 0 { assert(fills(a, vs[0])); }
            if j == 1 { assert(fills(b, vs[1])); }
        }
    }
}

/// `?play code...`.
#[verifier::rlimit(40)]
proof fn lemma_play_missing_code_pattern()
    ensures
        pattern_ok("?play code..."@),
        simple_prefix(words("?play code..."@), 2),
        words("?play code..."@).len() == 2,
        forall|code: Seq<char>| code.len() > 0
            ==> #[trigger] fills_all(words("?play code..."@), words2("?play"@, code), 2),
{
    let p = "?play code..."@;
    let a = "?play"@;
    let b = "code..."@;
    assert(p =~= a + seq![' '] + b) by { reveal_strlit("?play code..."); reveal_strlit("?play"); reveal_strlit("code..."); }
    assert(all_ascii(p)) by { reveal_strlit("?play code..."); }
    assert(a.len() > 0 && plain_text(a)) by { reveal_strlit("?play"); }
    lemma_literal_kind(a);
    assert(b.len() > 3 && b[0] != '{' && b[b.len() - 3] == '.' && b[b.len() - 2] == '.' && b[b.len() - 1] == '.'
        && forall|i: int| 0 <= i < b.len() ==> #[trigger] b[i] != '=' && b[i] != ' ') by { reveal_strlit("code..."); }
    lemma_rest_kind(b);
    lemma_words_of(a, b, a, a);
    assert(words(p) == seq![a, b]);
    assert(simple_prefix(words(p), 2)) by {
        assert forall|j: int| 0 <= j < 2 implies simple_word(#[trigger] words(p)[j]) by {
            assert(words(p)[j] == seq![a, b][j]);
        }
    }
    lemma_simple_pattern_ok(p);
    assert forall|code: Seq<char>| code.len() > 0
        implies #[trigger] fills_all(words(p), words2(a, code), 2) by {
        let vs = words2(a, code);
        assert forall|j: int| 0 <= j < 2 implies #[trigger] fills(words(p)[j], vs[j]) by {
            if j == 0 { assert(fills(a, vs[0])); }
            if j == 1 { assert(fills(b, vs[1])); }
        }
    }
}

/// `?eval code...`.
#[verifier::rlimit(40)]
proof fn lemma_eval_missing_code_pattern()
    ensures
        pattern_ok("?eval code..."@),
        simple_prefix(words("?eval code..."@), 2),
        words("?eval code..."@).len() == 2,
        forall|code: Seq<char>| code.len() > 0
            ==> #[trigger] fills_all(words("?eval code..."@), words2("?eval"@, code), 2),
        rest_word(words("?eval code..."@).last()),
{
    let p = "?eval code..."@;
    let a = "?eval"@;
    let b = "code..."@;
    assert(p =~= a + seq![' '] + b) by { reveal_strlit("?eval code..."); reveal_strlit("?eval"); reveal_strlit("code..."); }
    assert(all_ascii(p)) by { reveal_strlit("?eval code..."); }
    assert(a.len() > 0 && plain_text(a)) by { reveal_strlit("?eval"); }
    lemma_literal_kind(a);
    assert(b.len() > 3 && b[0] != '{' && b[b.len() - 3] == '.' && b[b.len() - 2] == '.' && b[b.len() - 1] == '.'
        && forall|i: int| 0 <= i < b.len() ==> #[trigger] b[i] != '=' && b[i] != ' ') by { reveal_strlit("code..."); }
    lemma_rest_kind(b);
    lemma_words_of(a, b, a, a);
    assert(words(p) == seq![a, b]);
    assert(simple_prefix(words(p), 2)) by {
        assert forall|j: int| 0 <= j < 2 implies simple_word(#[trigger] words(p)[j]) by {
            assert(words(p)[j] == seq![a, b][j]);
        }
    }
    lemma_simple_pattern_ok(p);
    assert forall|code: Seq<char>| code.len() > 0
        implies #[trigger] fills_all(words(p), words2(a, code), 2) by {
        let vs = words2(a, code);
        assert forall|j: int| 0 <= j < 2 implies #[trigger] fills(words(p)[j], vs[j]) by {
            if j == 0 { assert(fills(a, vs[0])); }
            if j == 1 { assert(fills(b, vs[1])); }
        }
    }
}

/// `?docs query...`.
#[verifier::rlimit(40)]
proof fn lemma_docs_pattern()
    ensures
        pattern_ok("?docs query..."@),
        simple_prefix(words("?docs query..."@), 2),
        words("?docs query..."@).len() == 2,
        forall|query: Seq<char>| query.len() > 0
            ==> #[trigger] fills_all(words("?docs query..."@), words2("?docs"@, query), 2),
        rest_word(words("?docs query..."@).last()),
{
    let p = "?docs query..."@;
    let a = "?docs"@;
    let b = "query..."@;
    assert(p =~= a + seq![' '] + b) by { reveal_strlit("?docs query..."); reveal_strlit("?docs"); reveal_strlit("query..."); }
    assert(all_ascii(p)) by { reveal_strlit("?docs query..."); }
    assert(a.len() > 0 && plain_text(a)) by { reveal_strlit("?docs"); }
    lemma_literal_kind(a);
    assert(b.len() > 3 && b[0] != '{' && b[b.len() - 3] == '.' && b[b.len() - 2] == '.' && b[b.len() - 1] == '.'
        && forall|i: int| 0 <= i < b.len() ==> #[trigger] b[i] != '=' && b[i] != ' ') by { reveal_strlit("query..."); }
    lemma_rest_kind(b);
    lemma_words_of(a, b, a, a);
    assert(words(p) == seq![a, b]);
    assert(simple_prefix(words(p), 2)) by {
        assert forall|j: int| 0 <= j < 2 implies simple_word(#[trigger] words(p)[j]) by {
            assert(words(p)[j] == seq![a, b][j]);
        }
    }
    lemma_simple_pattern_ok(p);
    assert forall|query: Seq<char>| query.len() > 0
        implies #[trigger] fills_all(words(p), words2(a, query), 2) by {
        let vs = words2(a, query);
        assert forall|j: int| 0 <= j < 2 implies #[trigger] fills(words(p)[j], vs[j]) by {
            if j == 0 { assert(fills(a, vs[0])); }
            if j == 1 { assert(fills(b, vs[1])); }
        }
    }
}

/// `?slowmode {channel} {seconds}`.
#[verifier::rlimit(40)]
proof fn lemma_slowmode_pattern()
    ensures
        pattern_ok("?slowmode {channel} {seconds}"@),
        simple_prefix(words("?slowmode {channel} {seconds}"@), 3),
        words("?slowmode {channel} {seconds}"@).len() == 3,
        forall|channel: Seq<char>, seconds: Seq<char>| channel.len() > 0 && no_space(channel) && seconds.len() > 0 && no_space(seconds)
            ==> #[trigger] fills_all(words("?slowmode {channel} {seconds}"@), words3("?slowmode"@, channel, seconds), 3),
{
    let p = "?slowmode {channel} {seconds}"@;
    let a = "?slowmode"@;
    let b = "{channel}"@;
    let c = "{seconds}"@;
    assert(p =~= a + seq![' '] + (b + seq![' '] + c)) by { reveal_strlit("?slowmode {channel} {seconds}"); reveal_strlit("?slowmode"); reveal_strlit("{channel}"); reveal_strlit("{seconds}"); }
    assert(all_ascii(p)) by { reveal_strlit("?slowmode {channel} {seconds}"); }
    assert(a.len() > 0 && plain_text(a)) by { reveal_strlit("?slowmode"); }
    lemma_literal_kind(a);
    assert(b.len() >= 2 && b[0] == '{' && b[b.len() - 1] == '}'
        && forall|i: int| 0 <= i < b.len() ==> #[trigger] b[i] != '=' && b[i] != ' ') by { reveal_strlit("{channel}"); }
    lemma_param_kind(b);
    assert(c.len() >= 2 && c[0] == '{' && c[c.len() - 1] == '}'
        && forall|i: int| 0 <= i < c.len() ==> #[trigger] c[i] != '=' && c[i] != ' ') by { reveal_strlit("{seconds}"); }
    lemma_param_kind(c);
    lemma_words_of(a, b, c, a);
    assert(words(p) == seq![a, b, c]);
    assert(simple_prefix(words(p), 3)) by {
        assert forall|j: int| 0 <= j < 3 implies simple_word(#[trigger] words(p)[j]) by {
            assert(words(p)[j] == seq![a, b, c][j]);
        }
    }
    lemma_simple_pattern_ok(p);
    assert forall|channel: Seq<char>, seconds: Seq<char>| channel.len() > 0 && no_space(channel) && seconds.len() > 0 && no_space(seconds)
        implies #[trigger] fills_all(words(p), words3(a, channel, seconds), 3) by {
        let vs = words3(a, channel, seconds);
        assert forall|j: int| 0 <= j < 3 implies #[trigger] fills(words(p)[j], vs[j]) by {
            if j == 0 { assert(fills(a, vs[0])); }
            if j == 1 { assert(fills(b, vs[1])); }
            if j == 2 { assert(fills(c, vs[2])); }
        }
    }
}

/// `?kick {user}`.
#[verifier::rlimit(40)]
proof fn lemma_kick_pattern()
    ensures
        pattern_ok("?kick {user}"@),
        simple_prefix(words("?kick {user}"@), 2),
        words("?kick {user}"@).len() == 2,
        forall|user: Seq<char>| user.len() > 0 && no_space(user)
            ==> #[trigger] fills_all(words("?kick {user}"@), words2("?kick"@, user), 2),
{
    let p = "?kick {user}"@;
    let a = "?kick"@;
    let b = "{user}"@;
    assert(p =~= a + seq![' '] + b) by { reveal_strlit("?kick {user}"); reveal_strlit("?kick"); reveal_strlit("{user}"); }
    assert(all_ascii(p)) by { reveal_strlit("?kick {user}"); }
    assert(a.len() > 0 && plain_text(a)) by { reveal_strlit("?kick"); }
    lemma_literal_kind(a);
    assert(b.len() >= 2 && b[0] == '{' && b[b.len() - 1] == '}'
        && forall|i: int| 0 <= i < b.len() ==> #[trigger] b[i] != '=' && b[i] != ' ') by { reveal_strlit("{user}"); }
    lemma_param_kind(b);
    lemma_words_of(a, b, a, a);
    assert(words(p) == seq![a, b]);
    assert(simple_prefix(words(p), 2)) by {
        assert forall|j: int| 0 <= j < 2 implies simple_word(#[trigger] words(p)[j]) by {
            assert(words(p)[j] == seq![a, b][j]);
        }
    }
    lemma_simple_pattern_ok(p);
    assert forall|user: Seq<char>| user.len() > 0 && no_space(user)
        implies #[trigger] fills_all(words(p), words2(a, user), 2) by {
        let vs = words2(a, user);
        assert forall|j: int| 0 <= j < 2 implies #[trigger] fills(words(p)[j], vs[j]) by {
            if j == 0 { assert(fills(a, vs[0])); }
            if j == 1 { assert(fills(b, vs[1])); }
        }
    }
}

/// `?ban {user} {hours} reason...`.
#[verifier::rlimit(60)]
proof fn lemma_ban_pattern()
    ensures
        pattern_ok("?ban {user} {hours} reason..."@),
        simple_prefix(words("?ban {user} {hours} reason..."@), 4),
        words("?ban {user} {hours} reason..."@).len() == 4,
        forall|user: Seq<char>, hours: Seq<char>, reason: Seq<char>| user.len() > 0 && no_space(user) && hours.len() > 0 && no_space(hours) && reason.len() > 0
            ==> #[trigger] fills_all(words("?ban {user} {hours} reason..."@), words4("?ban"@, user, hours, reason), 4),
        rest_word(words("?ban {user} {hours} reason..."@).last()),
{
    let p = "?ban {user} {hours} reason..."@;
    let a = "?ban"@;
    let b = "{user}"@;
    let c = "{hours}"@;
    let d = "reason..."@;
    assert(p =~= a + seq![' '] + (b + seq![' '] + (c + seq![' '] + d))) by { reveal_strlit("?ban {user} {hours} reason..."); reveal_strlit("?ban"); reveal_strlit("{user}"); reveal_strlit("{hours}"); reveal_strlit("reason..."); }
    assert(all_ascii(p)) by { reveal_strlit("?ban {user} {hours} reason..."); }
    assert(a.len() > 0 && plain_text(a)) by { reveal_strlit("?ban"); }
    lemma_literal_kind(a);
    assert(b.len() >= 2 && b[0] == '{' && b[b.len() - 1] == '}'
        && forall|i: int| 0 <= i < b.len() ==> #[trigger] b[i] != '=' && b[i] != ' ') by { reveal_strlit("{user}"); }
    lemma_param_kind(b);
    assert(c.len() >= 2 && c[0] == '{' && c[c.len() - 1] == '}'
        && forall|i: int| 0 <= i < c.len() ==> #[trigger] c[i] != '=' && c[i] != ' ') by { reveal_strlit("{hours}"); }
    lemma_param_kind(c);
    assert(d.len() > 3 && d[0] != '{' && d[d.len() - 3] == '.' && d[d.len() - 2] == '.' && d[d.len() - 1] == '.'
        && forall|i: int| 0 <= i < d.len() ==> #[trigger] d[i] != '=' && d[i] != ' ') by { reveal_strlit("reason..."); }
    lemma_rest_kind(d);
    lemma_words_of(a, b, c, d);
    assert(words(p) == seq![a, b, c, d]);
    assert(simple_prefix(words(p), 4)) by {
        assert forall|j: int| 0 <= j < 4 implies simple_word(#[trigger] words(p)[j]) by {
            assert(words(p)[j] == seq![a, b, c, d][j]);
        }
    }
    lemma_simple_pattern_ok(p);
    assert forall|user: Seq<char>, hours: Seq<char>, reason: Seq<char>| user.len() > 0 && no_space(user) && hours.len() > 0 && no_space(hours) && reason.len() > 0
        implies #[trigger] fills_all(words(p), words4(a, user, hours, reason), 4) by {
        let vs = words4(a, user, hours, reason);
        assert forall|j: int| 0 <= j < 4 implies #[trigger] fills(words(p)[j], vs[j]) by {
            if j == 0 { assert(fills(a, vs[0])); }
            if j == 1 { assert(fills(b, vs[1])); }
            if j == 2 { assert(fills(c, vs[2])); }
            if j == 3 { assert(fills(d, vs[3])); }
        }
    }
}

/// `?CoC {channel}`.
#[verifier::rlimit(40)]
proof fn lemma_coc_pattern()
    ensures
        pattern_ok("?CoC {channel}"@),
        simple_prefix(words("?CoC {channel}"@), 2),
        words("?CoC {channel}"@).len() == 2,
        forall|channel: Seq<char>| channel.len() > 0 && no_space(channel)
            ==> #[trigger] fills_all(words("?CoC {channel}"@), words2("?CoC"@, channel), 2),
        param_word(words("?CoC {channel}"@).last()),
{
    let p = "?CoC {channel}"@;
    let a = "?CoC"@;
    let b = "{channel}"@;
    assert(p =~= a + seq![' '] + b) by { reveal_strlit("?CoC {channel}"); reveal_strlit("?CoC"); reveal_strlit("{channel}"); }
    assert(all_ascii(p)) by { reveal_strlit("?CoC {channel}"); }
    assert(a.len() > 0 && plain_text(a)) by { reveal_strlit("?CoC"); }
    lemma_literal_kind(a);
    assert(b.len() >= 2 && b[0] == '{' && b[b.len() - 1] == '}'
        && forall|i: int| 0 <= i < b.len() ==> #[trigger] b[i] != '=' && b[i] != ' ') by { reveal_strlit("{channel}"); }
    lemma_param_kind(b);
    lemma_words_of(a, b, a, a);
    assert(words(p) == seq![a, b]);
    assert(simple_prefix(words(p), 2)) by {
        assert forall|j: int| 0 <= j < 2 implies simple_word(#[trigger] words(p)[j]) by {
            assert(words(p)[j] == seq![a, b][j]);
        }
    }
    lemma_simple_pattern_ok(p);
    assert forall|channel: Seq<char>| channel.len() > 0 && no_space(channel)
        implies #[trigger] fills_all(words(p), words2(a, channel), 2) by {
        let vs = words2(a, channel);
        assert forall|j: int| 0 <= j < 2 implies #[trigger] fills(words(p)[j], vs[j]) by {
            if j == 0 { assert(fills(a, vs[0])); }
            if j == 1 { assert(fills(b, vs[1])); }
        }
    }
}

/// `?tags`: one word.
proof fn lemma_tag_list_pattern()
    ensures
        pattern_ok("?tags"@),
        simple_prefix(words("?tags"@), 1),
        words("?tags"@).len() == 1,
        fills_all(words("?tags"@), seq!["?tags"@], 1),
        join_words(seq!["?tags"@]) == "?tags"@,
        literal_word(words("?tags"@).last()),
        words("?tags"@).last() == "?tags"@,
        "?tags"@.len() == 5,
        "?tags"@.last() == 's',
{
    reveal_strlit("?tags");
    assert(plain_text("?tags"@));
    lemma_plain_pattern("?tags"@);
    lemma_literal_kind("?tags"@);
    crate::commands::lemma_words_single("?tags"@);
}

/// `r` is a final state of `m` whose command is `command`.
pub open spec fn answers(m: Seq<StateView>, h: Map<usize, Command>, r: usize, command: Command) -> bool {
    &&& (r as int) < m.len()
    &&& m[r as int].is_final
    &&& h.contains_key(r)
    &&& h[r] == command
}

/// A state that answers with `command` keeps doing so when a later command
/// is registered at another state, which can be told apart from it by a
/// character that one of them reads and the other does not.
proof fn lemma_answers_kept(
    m_a: Seq<StateView>,
    h_a: Map<usize, Command>,
    m_b: Seq<StateView>,
    h_b: Map<usize, Command>,
    r: usize,
    command: Command,
    r2: usize,
    c2: Command,
    c: char,
)
    requires
        answers(m_a, h_a, r, command),
        extends(m_a, m_b),
        h_b == h_a.insert(r2, c2),
        (r2 as int) < m_b.len(),
        m_a[r as int].expected.has(c) != m_b[r2 as int].expected.has(c),
    ensures
        answers(m_b, h_b, r, command),
        r2 != r,
{
    assert(kept_state(m_a[r as int], m_b[r as int]));
}

/// The tag commands, when tags are on: `?tags` lists the tags, and
/// `?help tags` explains them.
fn register_tags(cmds: &mut Commands<Command>)
    ensures
        adds_only(old(cmds).handlers(), final(cmds).handlers(), tag_handlers()),
        keeps_messages(old(cmds).machine(), final(cmds).machine()),
        accepts(final(cmds).machine(), "?tags"@),
        accepts(final(cmds).machine(), help_message("?tags"@)),
        forall|key: Seq<char>| key.len() > 0 && no_space(key)
            ==> #[trigger] accepts(final(cmds).machine(), join_words(words2("?tag"@, key))),
        forall|key: Seq<char>| key.len() > 0 && no_space(key)
            ==> #[trigger] accepts(final(cmds).machine(), join_words(words3("?tags"@, "delete"@, key))),
        forall|key: Seq<char>, value: Seq<char>| key.len() > 0 && no_space(key) && value.len() > 0
            ==> #[trigger] accepts(final(cmds).machine(), join_words(words4("?tags"@, "create"@, key, value))),
        forall|key: Seq<char>, value: Seq<char>| key.len() > 0 && no_space(key) && value.len() > 0
            ==> #[trigger] accepts(final(cmds).machine(), join_words(words4("?tags"@, "update"@, key, value))),
        exists|r: usize| #[trigger] answers(final(cmds).machine(), final(cmds).handlers(), r,
            Command { kind: CommandKind::Protected, guard: Guard::WgAndTeams, handler: Handler::TagUpdate })
            && forall|key: Seq<char>, value: Seq<char>| key.len() > 0 && no_space(key) && value.len() > 0
                ==> #[trigger] reads(final(cmds).machine(), 0, join_words(words4("?tags"@, "update"@, key, value)), r),
        exists|r: usize| #[trigger] answers(final(cmds).machine(), final(cmds).handlers(), r,
            Command { kind: CommandKind::Base, guard: Guard::Anyone, handler: Handler::TagGet })
            && forall|key: Seq<char>| key.len() > 0 && no_space(key)
                ==> #[trigger] reads(final(cmds).machine(), 0, join_words(words2("?tag"@, key)), r),
        exists|r: usize| #[trigger] answers(final(cmds).machine(), final(cmds).handlers(), r,
            Command { kind: CommandKind::Base, guard: Guard::Anyone, handler: Handler::TagHelp })
            && reads(final(cmds).machine(), 0, help_message("?tags"@), r),
{
    let ghost h0 = cmds.handlers();
    proof { lemma_adds_refl(h0, tag_handlers()); }
    let ghost m0 = cmds.machine();
    let c1 = Command::new_with_auth(Handler::TagDelete, Guard::WgAndTeams);
    let ghost hb1 = cmds.handlers();
    register(cmds, "?tags delete {key}", c1);
    proof { lemma_adds_step(h0, hb1, cmds.handlers(), tag_handlers(), c1); }
    let ghost m1 = cmds.machine();
    let c2 = Command::new_with_auth(Handler::TagCreate, Guard::WgAndTeams);
    let ghost hb2 = cmds.handlers();
    register(cmds, "?tags create {key} value...", c2);
    proof { lemma_adds_step(h0, hb2, cmds.handlers(), tag_handlers(), c2); }
    let ghost m2 = cmds.machine();
    let c3 = Command::new_with_auth(Handler::TagUpdate, Guard::WgAndTeams);
    let ghost hb3 = cmds.handlers();
    register(cmds, "?tags update {key} value...", c3);
    proof { lemma_adds_step(h0, hb3, cmds.handlers(), tag_handlers(), c3); }
    let ghost m3 = cmds.machine();
    let c4 = Command::new(Handler::TagGet);
    let ghost hb4 = cmds.handlers();
    register(cmds, "?tag {key}", c4);
    proof { lemma_adds_step(h0, hb4, cmds.handlers(), tag_handlers(), c4); }
    let ghost m4 = cmds.machine();
    let c5 = Command::new(Handler::TagList);
    let ghost hb5 = cmds.handlers();
    register(cmds, "?tags", c5);
    proof { lemma_adds_step(h0, hb5, cmds.handlers(), tag_handlers(), c5); }
    let ghost m5 = cmds.machine();
    let c6 = Command::new(Handler::TagHelp);
    let ghost hb6 = cmds.handlers();
    register_help(cmds, "?tags", "A key value store", c6);
    proof { lemma_adds_step(h0, hb6, cmds.handlers(), tag_handlers(), c6); }
    proof {
        let m6 = cmds.machine();
        lemma_keeps_trans(m0, m1, m2);
        lemma_keeps_trans(m0, m2, m3);
        lemma_keeps_trans(m0, m3, m4);
        lemma_keeps_trans(m0, m4, m5);
        lemma_keeps_trans(m0, m5, m6);
        lemma_keeps_trans(m1, m2, m3);
        lemma_keeps_trans(m1, m3, m4);
        lemma_keeps_trans(m1, m4, m5);
        lemma_keeps_trans(m1, m5, m6);
        lemma_keeps_trans(m2, m3, m4);
        lemma_keeps_trans(m2, m4, m5);
        lemma_keeps_trans(m2, m5, m6);
        lemma_keeps_trans(m3, m4, m5);
        lemma_keeps_trans(m3, m5, m6);
        lemma_keeps_trans(m4, m5, m6);
        // Where each of the last four commands ends, and what that state reads.
        lemma_tag_update_pattern();
        lemma_tag_get_pattern();
        lemma_tag_list_pattern();
        let wu = words("?tags update {key} value..."@);
        let wg = words("?tag {key}"@);
        let wl = words("?tags"@);
        let r3 = choose|r: usize| #[trigger] message_end(hb3, m3, hb4, wu, r, c3);
        let r4 = choose|r: usize| #[trigger] message_end(hb4, m4, hb5, wg, r, c4);
        let r5 = choose|r: usize| #[trigger] message_end(hb5, m5, hb6, wl, r, c5);
        assert("?tags"@.len() >= 2 && all_ascii("?tags"@)) by {
            reveal_strlit("?tags");
        }
        let r6 = choose|r: usize| #[trigger] help_end(hb6, m6, cmds.handlers(), "?tags"@, r, c6);
        assert(answers(m3, hb4, r3, c3));
        assert(m3[r3 as int].expected.has(' '));
        assert(m4[r4 as int].expected.has(' ') == false && m4[r4 as int].expected.has('a'));
        assert(m5[r5 as int].expected.has('a') == false && m5[r5 as int].expected.has(' ') == false);
        assert(m6[r6 as int].expected.has('a') == false && m6[r6 as int].expected.has(' ') == false);
        // `?tags update` keeps its command.
        lemma_answers_kept(m3, hb4, m4, hb5, r3, c3, r4, c4, ' ');
        lemma_extends_trans(m3, m4, m5);
        assert(kept_state(m3[r3 as int], m4[r3 as int]));
        assert(kept_state(m4[r3 as int], m5[r3 as int]));
        assert(kept_state(m4[r4 as int], m5[r4 as int]));
        lemma_answers_kept(m4, hb5, m5, hb6, r3, c3, r5, c5, ' ');
        lemma_answers_kept(m5, hb6, m6, cmds.handlers(), r3, c3, r6, c6, ' ');
        // `?tag {key}` keeps its command.
        assert(answers(m4, hb5, r4, c4));
        lemma_answers_kept(m4, hb5, m5, hb6, r4, c4, r5, c5, 'a');
        lemma_answers_kept(m5, hb6, m6, cmds.handlers(), r4, c4, r6, c6, 'a');
        lemma_extends_trans(m3, m5, m6);
        lemma_extends_trans(m4, m5, m6);
        assert forall|key: Seq<char>, value: Seq<char>| key.len() > 0 && no_space(key) && value.len() > 0
            implies #[trigger] reads(m6, 0, join_words(words4("?tags"@, "update"@, key, value)), r3) by {
            assert(fills_all(wu, words4("?tags"@, "update"@, key, value), 4));
            lemma_reads_extends(m3, m6, 0, join_words(words4("?tags"@, "update"@, key, value)), r3);
        }
        assert forall|key: Seq<char>| key.len() > 0 && no_space(key)
            implies #[trigger] reads(m6, 0, join_words(words2("?tag"@, key)), r4) by {
            assert(fills_all(wg, words2("?tag"@, key), 2));
            lemma_reads_extends(m4, m6, 0, join_words(words2("?tag"@, key)), r4);
        }
        assert(c3 == Command { kind: CommandKind::Protected, guard: Guard::WgAndTeams, handler: Handler::TagUpdate });
        assert(answers(m6, cmds.handlers(), r3, c3));
        assert(answers(m6, cmds.handlers(), r4, c4));
        assert(answers(m6, cmds.handlers(), r6, c6));
        assert(accepts(m6, "?tags"@)) by {
            lemma_tag_list_pattern();
            assert(accepts(m5, join_words(seq!["?tags"@])));
        }
        assert forall|key: Seq<char>| key.len() > 0 && no_space(key)
            implies #[trigger] accepts(m6, join_words(words2("?tag"@, key))) by {
            lemma_tag_get_pattern();
            assert(fills_all(words("?tag {key}"@), words2("?tag"@, key), 2));
            assert(accepts(m4, join_words(words2("?tag"@, key))));
        }
        assert forall|key: Seq<char>| key.len() > 0 && no_space(key)
            implies #[trigger] accepts(m6, join_words(words3("?tags"@, "delete"@, key))) by {
            lemma_tag_delete_pattern();
            assert(fills_all(words("?tags delete {key}"@), words3("?tags"@, "delete"@, key), 3));
            assert(accepts(m1, join_words(words3("?tags"@, "delete"@, key))));
        }
        assert forall|key: Seq<char>, value: Seq<char>| key.len() > 0 && no_space(key) && value.len() > 0
            implies #[trigger] accepts(m6, join_words(words4("?tags"@, "create"@, key, value))) by {
            lemma_tag_create_pattern();
            assert(fills_all(words("?tags create {key} value..."@), words4("?tags"@, "create"@, key, value), 4));
            assert(accepts(m2, join_words(words4("?tags"@, "create"@, key, value))));
        }
        assert forall|key: Seq<char>, value: Seq<char>| key.len() > 0 && no_space(key) && value.len() > 0
            implies #[trigger] accepts(m6, join_words(words4("?tags"@, "update"@, key, value))) by {
            lemma_tag_update_pattern();
            assert(fills_all(words("?tags update {key} value..."@), words4("?tags"@, "update"@, key, value), 4));
            assert(accepts(m3, join_words(words4("?tags"@, "update"@, key, value))));
        }
        assert(accepts(m6, help_message("?tags"@))) by {
            reveal_strlit("?tags");
            assert(all_ascii("?tags"@));
        }
    }
}

/// Every message that `a` recognises, `c` recognises too, when `b` lies
/// between them.
proof fn lemma_keeps_trans(a: Seq<StateView>, b: Seq<StateView>, c: Seq<StateView>)
    requires
        keeps_messages(a, b),
        keeps_messages(b, c),
    ensures
        keeps_messages(a, c),
{
    assert forall|w: Seq<char>| accepts(a, w) implies #[trigger] accepts(c, w) by {
        assert(accepts(b, w));
    }
}

/// The crate commands, when crates are on.
fn register_crates(cmds: &mut Commands<Command>)
    ensures
        adds_only(old(cmds).handlers(), final(cmds).handlers(), crate_handlers()),
        keeps_messages(old(cmds).machine(), final(cmds).machine()),
        accepts(final(cmds).machine(), help_message("?crate"@)),
        accepts(final(cmds).machine(), help_message("?docs"@)),
        forall|query: Seq<char>| query.len() > 0
            ==> #[trigger] accepts(final(cmds).machine(), join_words(words2("?crate"@, query))),
        forall|query: Seq<char>| query.len() > 0
            ==> #[trigger] accepts(final(cmds).machine(), join_words(words2("?docs"@, query))),
        exists|r: usize| #[trigger] answers(final(cmds).machine(), final(cmds).handlers(), r,
            Command { kind: CommandKind::Base, guard: Guard::Anyone, handler: Handler::DocSearch })
            && forall|query: Seq<char>| query.len() > 0
                ==> #[trigger] reads(final(cmds).machine(), 0, join_words(words2("?docs"@, query)), r),
        exists|r: usize| #[trigger] answers(final(cmds).machine(), final(cmds).handlers(), r,
            Command { kind: CommandKind::Base, guard: Guard::Anyone, handler: Handler::DocHelp })
            && reads(final(cmds).machine(), 0, help_message("?docs"@), r),
{
    let ghost h0 = cmds.handlers();
    proof { lemma_adds_refl(h0, crate_handlers()); }
    let ghost m0 = cmds.machine();
    let c1 = Command::new(Handler::CrateSearch);
    let ghost hb1 = cmds.handlers();
    register(cmds, "?crate query...", c1);
    proof { lemma_adds_step(h0, hb1, cmds.handlers(), crate_handlers(), c1); }
    let ghost m1 = cmds.machine();
    let c2 = Command::new(Handler::CrateHelp);
    let ghost hb2 = cmds.handlers();
    register_help(cmds, "?crate", "Lookup crates on crates.io", c2);
    proof { lemma_adds_step(h0, hb2, cmds.handlers(), crate_handlers(), c2); }
    let ghost m2 = cmds.machine();
    let c3 = Command::new(Handler::DocSearch);
    let ghost hb3 = cmds.handlers();
    register(cmds, "?docs query...", c3);
    proof { lemma_adds_step(h0, hb3, cmds.handlers(), crate_handlers(), c3); }
    let ghost m3 = cmds.machine();
    let c4 = Command::new(Handler::DocHelp);
    let ghost hb4 = cmds.handlers();
    register_help(cmds, "?docs", "Lookup documentation", c4);
    proof { lemma_adds_step(h0, hb4, cmds.handlers(), crate_handlers(), c4); }
    proof {
        let m4 = cmds.machine();
        lemma_keeps_trans(m0, m1, m2);
        lemma_keeps_trans(m0, m2, m3);
        lemma_keeps_trans(m0, m3, m4);
        lemma_keeps_trans(m1, m2, m3);
        lemma_keeps_trans(m1, m3, m4);
        lemma_keeps_trans(m2, m3, m4);
        assert(accepts(m4, help_message("?crate"@))) by {
            reveal_strlit("?crate");
            assert(all_ascii("?crate"@));
        }
        assert(accepts(m4, help_message("?docs"@))) by {
            reveal_strlit("?docs");
            assert(all_ascii("?docs"@));
        }
        assert forall|query: Seq<char>| query.len() > 0
            implies #[trigger] accepts(m4, join_words(words2("?crate"@, query))) by {
            lemma_crate_pattern();
            assert(fills_all(words("?crate query..."@), words2("?crate"@, query), 2));
            assert(accepts(m1, join_words(words2("?crate"@, query))));
        }
        assert forall|query: Seq<char>| query.len() > 0
            implies #[trigger] accepts(m4, join_words(words2("?docs"@, query))) by {
            lemma_docs_pattern();
            assert(fills_all(words("?docs query..."@), words2("?docs"@, query), 2));
            assert(accepts(m3, join_words(words2("?docs"@, query))));
        }
        // Where the last two commands end, and what those states read.
        lemma_docs_pattern();
        let wd = words("?docs query..."@);
        assert("?docs"@.len() >= 2 && all_ascii("?docs"@) && "?docs"@.last() == 's') by {
            reveal_strlit("?docs");
        }
        let r3 = choose|r: usize| #[trigger] message_end(hb3, m3, hb4, wd, r, c3);
        let r4 = choose|r: usize| #[trigger] help_end(hb4, m4, cmds.handlers(), "?docs"@, r, c4);
        assert(answers(m3, hb4, r3, c3));
        assert(answers(m4, cmds.handlers(), r4, c4));
        assert(m3[r3 as int].expected.has(' '));
        assert(!m4[r4 as int].expected.has(' '));
        lemma_answers_kept(m3, hb4, m4, cmds.handlers(), r3, c3, r4, c4, ' ');
        assert forall|query: Seq<char>| query.len() > 0
            implies #[trigger] reads(m4, 0, join_words(words2("?docs"@, query)), r3) by {
            assert(fills_all(wd, words2("?docs"@, query), 2));
            lemma_reads_extends(m3, m4, 0, join_words(words2("?docs"@, query)), r3);
        }
    }
}

/// The code-running commands, when evaluation is on.
fn register_eval(cmds: &mut Commands<Command>)
    ensures
        adds_only(old(cmds).handlers(), final(cmds).handlers(), eval_handlers()),
        keeps_messages(old(cmds).machine(), final(cmds).machine()),
        accepts(final(cmds).machine(), help_message("?play"@)),
        accepts(final(cmds).machine(), help_message("?eval"@)),
        forall|code: Seq<char>| code.len() > 0
            ==> #[trigger] accepts(final(cmds).machine(), join_words(words2("?play"@, code))),
        forall|code: Seq<char>| code.len() > 0
            ==> #[trigger] accepts(final(cmds).machine(), join_words(words2("?eval"@, code))),
        exists|r: usize| #[trigger] answers(final(cmds).machine(), final(cmds).handlers(), r,
            Command { kind: CommandKind::Base, guard: Guard::Anyone, handler: Handler::EvalMissingCode })
            && forall|code: Seq<char>| code.len() > 0
                ==> #[trigger] reads(final(cmds).machine(), 0, join_words(words2("?eval"@, code)), r),
        exists|r: usize| #[trigger] answers(final(cmds).machine(), final(cmds).handlers(), r,
            Command { kind: CommandKind::Base, guard: Guard::Anyone, handler: Handler::EvalHelp })
            && reads(final(cmds).machine(), 0, help_message("?eval"@), r),
{
    let ghost h0 = cmds.handlers();
    proof { lemma_adds_refl(h0, eval_handlers()); }
    let ghost m0 = cmds.machine();
    let c1 = Command::new(Handler::PlayRun);
    let ghost hb1 = cmds.handlers();
    register(cmds, "?play mode={} edition={} channel={} warn={} ```\ncode``` ...", c1);
    proof { lemma_adds_step(h0, hb1, cmds.handlers(), eval_handlers(), c1); }
    let ghost m1 = cmds.machine();
    let c2 = Command::new(Handler::PlayMissingCode);
    let ghost hb2 = cmds.handlers();
    register(cmds, "?play code...", c2);
    proof { lemma_adds_step(h0, hb2, cmds.handlers(), eval_handlers(), c2); }
    let ghost m2 = cmds.machine();
    let c3 = Command::new(Handler::PlayHelp);
    let ghost hb3 = cmds.handlers();
    register_help(cmds, "?play", "Compile and run rust code in a playground", c3);
    proof { lemma_adds_step(h0, hb3, cmds.handlers(), eval_handlers(), c3); }
    let ghost m3 = cmds.machine();
    let c4 = Command::new(Handler::EvalRun);
    let ghost hb4 = cmds.handlers();
    register(cmds, "?eval mode={} edition={} channel={} warn={} ```\ncode``` ...", c4);
    proof { lemma_adds_step(h0, hb4, cmds.handlers(), eval_handlers(), c4); }
    let ghost m4 = cmds.machine();
    let c5 = Command::new(Handler::EvalRun);
    let ghost hb5 = cmds.handlers();
    register(cmds, "?eval mode={} edition={} channel={} warn={} ```code``` ...", c5);
    proof { lemma_adds_step(h0, hb5, cmds.handlers(), eval_handlers(), c5); }
    let ghost m5 = cmds.machine();
    let c6 = Command::new(Handler::EvalRun);
    let ghost hb6 = cmds.handlers();
    register(cmds, "?eval mode={} edition={} channel={} warn={} `code` ...", c6);
    proof { lemma_adds_step(h0, hb6, cmds.handlers(), eval_handlers(), c6); }
    let ghost m6 = cmds.machine();
    let c7 = Command::new(Handler::EvalMissingCode);
    let ghost hb7 = cmds.handlers();
    register(cmds, "?eval code...", c7);
    proof { lemma_adds_step(h0, hb7, cmds.handlers(), eval_handlers(), c7); }
    let ghost m7 = cmds.machine();
    let c8 = Command::new(Handler::EvalHelp);
    let ghost hb8 = cmds.handlers();
    register_help(cmds, "?eval", "Evaluate a single rust expression", c8);
    proof { lemma_adds_step(h0, hb8, cmds.handlers(), eval_handlers(), c8); }
    proof {
        let m8 = cmds.machine();
        lemma_keeps_trans(m0, m1, m2);
        lemma_keeps_trans(m0, m2, m3);
        lemma_keeps_trans(m0, m3, m4);
        lemma_keeps_trans(m0, m4, m5);
        lemma_keeps_trans(m0, m5, m6);
        lemma_keeps_trans(m0, m6, m7);
        lemma_keeps_trans(m0, m7, m8);
        lemma_keeps_trans(m3, m4, m5);
        lemma_keeps_trans(m3, m5, m6);
        lemma_keeps_trans(m3, m6, m7);
        lemma_keeps_trans(m3, m7, m8);
        lemma_keeps_trans(m2, m3, m4);
        lemma_keeps_trans(m2, m4, m5);
        lemma_keeps_trans(m2, m5, m6);
        lemma_keeps_trans(m2, m6, m7);
        lemma_keeps_trans(m2, m7, m8);
        assert forall|code: Seq<char>| code.len() > 0
            implies #[trigger] accepts(m8, join_words(words2("?play"@, code))) by {
            lemma_play_missing_code_pattern();
            assert(fills_all(words("?play code..."@), words2("?play"@, code), 2));
            assert(accepts(m2, join_words(words2("?play"@, code))));
        }
        assert forall|code: Seq<char>| code.len() > 0
            implies #[trigger] accepts(m8, join_words(words2("?eval"@, code))) by {
            lemma_eval_missing_code_pattern();
            assert(fills_all(words("?eval code..."@), words2("?eval"@, code), 2));
            assert(accepts(m7, join_words(words2("?eval"@, code))));
        }
        assert(accepts(m8, help_message("?play"@))) by {
            reveal_strlit("?play");
            assert(all_ascii("?play"@));
        }
        assert(accepts(m8, help_message("?eval"@))) by {
            reveal_strlit("?eval");
            assert(all_ascii("?eval"@));
        }
        // Where the last two commands end, and what those states read.
        lemma_eval_missing_code_pattern();
        let we = words("?eval code..."@);
        assert("?eval"@.len() >= 2 && all_ascii("?eval"@) && "?eval"@.last() == 'l') by {
            reveal_strlit("?eval");
        }
        let r7 = choose|r: usize| #[trigger] message_end(hb7, m7, hb8, we, r, c7);
        let r8 = choose|r: usize| #[trigger] help_end(hb8, m8, cmds.handlers(), "?eval"@, r, c8);
        assert(answers(m7, hb8, r7, c7));
        assert(answers(m8, cmds.handlers(), r8, c8));
        assert(m7[r7 as int].expected.has(' '));
        assert(!m8[r8 as int].expected.has(' '));
        lemma_answers_kept(m7, hb8, m8, cmds.handlers(), r7, c7, r8, c8, ' ');
        assert forall|code: Seq<char>| code.len() > 0
            implies #[trigger] reads(m8, 0, join_words(words2("?eval"@, code)), r7) by {
            assert(fills_all(we, words2("?eval"@, code), 2));
            lemma_reads_extends(m7, m8, 0, join_words(words2("?eval"@, code)), r7);
        }
    }
}

/// The moderation commands, which are always there.
fn register_moderation(cmds: &mut Commands<Command>)
    ensures
        adds_only(old(cmds).handlers(), final(cmds).handlers(), moderation_handlers()),
        keeps_messages(old(cmds).machine(), final(cmds).machine()),
        accepts(final(cmds).machine(), help_message("?slowmode"@)),
        accepts(final(cmds).machine(), help_message("?kick"@)),
        accepts(final(cmds).machine(), help_message("?ban"@)),
        accepts(final(cmds).machine(), help_message("?CoC"@)),
        forall|channel: Seq<char>, seconds: Seq<char>|
            channel.len() > 0 && no_space(channel) && seconds.len() > 0 && no_space(seconds)
            ==> #[trigger] accepts(final(cmds).machine(), join_words(words3("?slowmode"@, channel, seconds))),
        forall|user: Seq<char>| user.len() > 0 && no_space(user)
            ==> #[trigger] accepts(final(cmds).machine(), join_words(words2("?kick"@, user))),
        forall|user: Seq<char>, hours: Seq<char>, reason: Seq<char>|
            user.len() > 0 && no_space(user) && hours.len() > 0 && no_space(hours) && reason.len() > 0
            ==> #[trigger] accepts(final(cmds).machine(), join_words(words4("?ban"@, user, hours, reason))),
        forall|channel: Seq<char>| channel.len() > 0 && no_space(channel)
            ==> #[trigger] accepts(final(cmds).machine(), join_words(words2("?CoC"@, channel))),
        exists|r: usize| #[trigger] answers(final(cmds).machine(), final(cmds).handlers(), r,
            Command { kind: CommandKind::Protected, guard: Guard::Moderator, handler: Handler::Ban })
            && final(cmds).machine()[r as int].expected.has(' ')
            && forall|user: Seq<char>, hours: Seq<char>, reason: Seq<char>|
                user.len() > 0 && no_space(user) && hours.len() > 0 && no_space(hours) && reason.len() > 0
                ==> #[trigger] reads(final(cmds).machine(), 0, join_words(words4("?ban"@, user, hours, reason)), r),
        exists|r: usize| #[trigger] answers(final(cmds).machine(), final(cmds).handlers(), r,
            Command { kind: CommandKind::Protected, guard: Guard::Moderator, handler: Handler::WelcomePost })
            && final(cmds).machine()[r as int].expected.has('a')
            && forall|channel: Seq<char>| channel.len() > 0 && no_space(channel)
                ==> #[trigger] reads(final(cmds).machine(), 0, join_words(words2("?CoC"@, channel)), r),
        exists|r: usize| #[trigger] answers(final(cmds).machine(), final(cmds).handlers(), r,
            Command { kind: CommandKind::Protected, guard: Guard::Moderator, handler: Handler::WelcomeHelp })
            && final(cmds).machine()[r as int].expected.has('C')
            && reads(final(cmds).machine(), 0, help_message("?CoC"@), r),
{
    let ghost h0 = cmds.handlers();
    proof { lemma_adds_refl(h0, moderation_handlers()); }
    let ghost m0 = cmds.machine();
    let c1 = Command::new_with_auth(Handler::SlowMode, Guard::Moderator);
    let ghost hb1 = cmds.handlers();
    register(cmds, "?slowmode {channel} {seconds}", c1);
    proof { lemma_adds_step(h0, hb1, cmds.handlers(), moderation_handlers(), c1); }
    let ghost m1 = cmds.machine();
    let c2 = Command::new_with_auth(Handler::SlowModeHelp, Guard::Moderator);
    let ghost hb2 = cmds.handlers();
    register_help(cmds, "?slowmode", "Set slowmode on a channel", c2);
    proof { lemma_adds_step(h0, hb2, cmds.handlers(), moderation_handlers(), c2); }
    let ghost m2 = cmds.machine();
    let c3 = Command::new_with_auth(Handler::Kick, Guard::Moderator);
    let ghost hb3 = cmds.handlers();
    register(cmds, "?kick {user}", c3);
    proof { lemma_adds_step(h0, hb3, cmds.handlers(), moderation_handlers(), c3); }
    let ghost m3 = cmds.machine();
    let c4 = Command::new_with_auth(Handler::KickHelp, Guard::Moderator);
    let ghost hb4 = cmds.handlers();
    register_help(cmds, "?kick", "Kick a user from the guild", c4);
    proof { lemma_adds_step(h0, hb4, cmds.handlers(), moderation_handlers(), c4); }
    let ghost m4 = cmds.machine();
    let c5 = Command::new_with_auth(Handler::Ban, Guard::Moderator);
    let ghost hb5 = cmds.handlers();
    register(cmds, "?ban {user} {hours} reason...", c5);
    proof { lemma_adds_step(h0, hb5, cmds.handlers(), moderation_handlers(), c5); }
    let ghost m5 = cmds.machine();
    let c6 = Command::new_with_auth(Handler::BanHelp, Guard::Moderator);
    let ghost hb6 = cmds.handlers();
    register_help(cmds, "?ban", "Temporarily ban a user from the guild", c6);
    proof { lemma_adds_step(h0, hb6, cmds.handlers(), moderation_handlers(), c6); }
    let ghost m6 = cmds.machine();
    let c7 = Command::new_with_auth(Handler::WelcomePost, Guard::Moderator);
    let ghost hb7 = cmds.handlers();
    register(cmds, "?CoC {channel}", c7);
    proof { lemma_adds_step(h0, hb7, cmds.handlers(), moderation_handlers(), c7); }
    let ghost m7 = cmds.machine();
    let c8 = Command::new_with_auth(Handler::WelcomeHelp, Guard::Moderator);
    let ghost hb8 = cmds.handlers();
    register_help(cmds, "?CoC", "Post the code of conduct message to a channel", c8);
    proof { lemma_adds_step(h0, hb8, cmds.handlers(), moderation_handlers(), c8); }
    proof {
        let m8 = cmds.machine();
        lemma_keeps_trans(m6, m7, m8);
        lemma_keeps_trans(m5, m6, m8);
        lemma_keeps_trans(m4, m5, m8);
        lemma_keeps_trans(m3, m4, m8);
        lemma_keeps_trans(m2, m3, m8);
        lemma_keeps_trans(m1, m2, m8);
        lemma_keeps_trans(m0, m1, m8);
        assert(accepts(m8, help_message("?slowmode"@))) by {
            reveal_strlit("?slowmode");
            assert(all_ascii("?slowmode"@));
        }
        assert(accepts(m8, help_message("?kick"@))) by {
            reveal_strlit("?kick");
            assert(all_ascii("?kick"@));
        }
        assert(accepts(m8, help_message("?ban"@))) by {
            reveal_strlit("?ban");
            assert(all_ascii("?ban"@));
        }
        assert(accepts(m8, help_message("?CoC"@))) by {
            reveal_strlit("?CoC");
            assert(all_ascii("?CoC"@));
        }
        assert forall|channel: Seq<char>, seconds: Seq<char>|
            channel.len() > 0 && no_space(channel) && seconds.len() > 0 && no_space(seconds)
            implies #[trigger] accepts(m8, join_words(words3("?slowmode"@, channel, seconds))) by {
            lemma_slowmode_pattern();
            assert(fills_all(words("?slowmode {channel} {seconds}"@), words3("?slowmode"@, channel, seconds), 3));
            assert(accepts(m1, join_words(words3("?slowmode"@, channel, seconds))));
        }
        assert forall|user: Seq<char>| user.len() > 0 && no_space(user)
            implies #[trigger] accepts(m8, join_words(words2("?kick"@, user))) by {
            lemma_kick_pattern();
            assert(fills_all(words("?kick {user}"@), words2("?kick"@, user), 2));
            assert(accepts(m3, join_words(words2("?kick"@, user))));
        }
        assert forall|user: Seq<char>, hours: Seq<char>, reason: Seq<char>|
            user.len() > 0 && no_space(user) && hours.len() > 0 && no_space(hours) && reason.len() > 0
            implies #[trigger] accepts(m8, join_words(words4("?ban"@, user, hours, reason))) by {
            lemma_ban_pattern();
            assert(fills_all(words("?ban {user} {hours} reason..."@), words4("?ban"@, user, hours, reason), 4));
            assert(accepts(m5, join_words(words4("?ban"@, user, hours, reason))));
        }
        assert forall|channel: Seq<char>| channel.len() > 0 && no_space(channel)
            implies #[trigger] accepts(m8, join_words(words2("?CoC"@, channel))) by {
            lemma_coc_pattern();
            assert(fills_all(words("?CoC {channel}"@), words2("?CoC"@, channel), 2));
            assert(accepts(m7, join_words(words2("?CoC"@, channel))));
        }
        // Where the last four commands end, and what those states read.
        lemma_ban_pattern();
        lemma_coc_pattern();
        let wb = words("?ban {user} {hours} reason..."@);
        let wc = words("?CoC {channel}"@);
        assert("?ban"@.len() >= 2 && all_ascii("?ban"@) && "?ban"@.last() == 'n') by {
            reveal_strlit("?ban");
        }
        assert("?CoC"@.len() >= 2 && all_ascii("?CoC"@) && "?CoC"@.last() == 'C') by {
            reveal_strlit("?CoC");
        }
        let r5 = choose|r: usize| #[trigger] message_end(hb5, m5, hb6, wb, r, c5);
        let r6 = choose|r: usize| #[trigger] help_end(hb6, m6, hb7, "?ban"@, r, c6);
        let r7 = choose|r: usize| #[trigger] message_end(hb7, m7, hb8, wc, r, c7);
        let r8 = choose|r: usize| #[trigger] help_end(hb8, m8, cmds.handlers(), "?CoC"@, r, c8);
        assert(answers(m5, hb6, r5, c5));
        assert(answers(m7, hb8, r7, c7));
        assert(answers(m8, cmds.handlers(), r8, c8));
        assert(m5[r5 as int].expected.has(' '));
        assert(!m6[r6 as int].expected.has(' '));
        assert(!m7[r7 as int].expected.has(' ') && m7[r7 as int].expected.has('a'));
        assert(!m8[r8 as int].expected.has(' ') && !m8[r8 as int].expected.has('a'));
        lemma_answers_kept(m5, hb6, m6, hb7, r5, c5, r6, c6, ' ');
        assert(kept_state(m5[r5 as int], m6[r5 as int]));
        lemma_answers_kept(m6, hb7, m7, hb8, r5, c5, r7, c7, ' ');
        assert(kept_state(m6[r5 as int], m7[r5 as int]));
        lemma_answers_kept(m7, hb8, m8, cmds.handlers(), r5, c5, r8, c8, ' ');
        lemma_answers_kept(m7, hb8, m8, cmds.handlers(), r7, c7, r8, c8, 'a');
        assert(kept_state(m7[r5 as int], m8[r5 as int]));
        assert(kept_state(m7[r7 as int], m8[r7 as int]));
        assert(m8[r5 as int].expected.has(' ') && m8[r7 as int].expected.has('a') && m8[r8 as int].expected.has('C'));
        lemma_extends_trans(m5, m6, m7);
        lemma_extends_trans(m5, m7, m8);
        assert forall|user: Seq<char>, hours: Seq<char>, reason: Seq<char>|
            user.len() > 0 && no_space(user) && hours.len() > 0 && no_space(hours) && reason.len() > 0
            implies #[trigger] reads(m8, 0, join_words(words4("?ban"@, user, hours, reason)), r5) by {
            assert(fills_all(wb, words4("?ban"@, user, hours, reason), 4));
            lemma_reads_extends(m5, m8, 0, join_words(words4("?ban"@, user, hours, reason)), r5);
        }
        assert forall|channel: Seq<char>| channel.len() > 0 && no_space(channel)
            implies #[trigger] reads(m8, 0, join_words(words2("?CoC"@, channel)), r7) by {
            assert(fills_all(wc, words2("?CoC"@, channel), 2));
            lemma_reads_extends(m7, m8, 0, join_words(words2("?CoC"@, channel)), r7);
        }
    }
}

/// The command table for the features that `config` turns on; the slow
/// mode, kick, ban and welcome commands are always there, and so is the
/// help menu.  It recognises `?help`, the help of each command that is on,
/// and each documented command with its parameters filled in: a parameter
/// by a word without spaces, and the rest of a message by any text.  Every
/// command in the table is one of a feature that is on, with the check
/// documented for its handler: changing tags needs the working groups and
/// teams role, and the moderation commands and their help need a moderator.
pub fn build_commands(config: &Config) -> (r: Commands<Command>)
    ensures
        forall|k: usize| #[trigger] r.handlers().contains_key(k) ==> r.handlers()[k] == documented_command(r.handlers()[k].handler)
            && handler_enabled(config.tags, config.crates, config.eval, r.handlers()[k].handler),
        forall|s: int| 0 <= s < r.machine().len() && #[trigger] r.machine()[s].is_final
            ==> r.handlers().contains_key(s as usize),
        accepts(r.machine(), "?help"@),
        accepts(r.machine(), help_message("?slowmode"@)),
        accepts(r.machine(), help_message("?kick"@)),
        accepts(r.machine(), help_message("?ban"@)),
        accepts(r.machine(), help_message("?CoC"@)),
        forall|channel: Seq<char>, seconds: Seq<char>|
            channel.len() > 0 && no_space(channel) && seconds.len() > 0 && no_space(seconds)
            ==> #[trigger] accepts(r.machine(), join_words(words3("?slowmode"@, channel, seconds))),
        forall|user: Seq<char>| user.len() > 0 && no_space(user)
            ==> #[trigger] accepts(r.machine(), join_words(words2("?kick"@, user))),
        forall|user: Seq<char>, hours: Seq<char>, reason: Seq<char>|
            user.len() > 0 && no_space(user) && hours.len() > 0 && no_space(hours) && reason.len() > 0
            ==> #[trigger] accepts(r.machine(), join_words(words4("?ban"@, user, hours, reason))),
        forall|channel: Seq<char>| channel.len() > 0 && no_space(channel)
            ==> #[trigger] accepts(r.machine(), join_words(words2("?CoC"@, channel))),
        config.tags ==> accepts(r.machine(), "?tags"@) && accepts(r.machine(), help_message("?tags"@)),
        config.tags ==> forall|key: Seq<char>| key.len() > 0 && no_space(key)
            ==> #[trigger] accepts(r.machine(), join_words(words2("?tag"@, key))),
        config.tags ==> forall|key: Seq<char>| key.len() > 0 && no_space(key)
            ==> #[trigger] accepts(r.machine(), join_words(words3("?tags"@, "delete"@, key))),
        config.tags ==> forall|key: Seq<char>, value: Seq<char>| key.len() > 0 && no_space(key) && value.len() > 0
            ==> #[trigger] accepts(r.machine(), join_words(words4("?tags"@, "create"@, key, value))),
        config.tags ==> forall|key: Seq<char>, value: Seq<char>| key.len() > 0 && no_space(key) && value.len() > 0
            ==> #[trigger] accepts(r.machine(), join_words(words4("?tags"@, "update"@, key, value))),
        config.crates ==> accepts(r.machine(), help_message("?crate"@))
            && accepts(r.machine(), help_message("?docs"@)),
        config.crates ==> forall|query: Seq<char>| query.len() > 0
            ==> #[trigger] accepts(r.machine(), join_words(words2("?crate"@, query))),
        config.crates ==> forall|query: Seq<char>| query.len() > 0
            ==> #[trigger] accepts(r.machine(), join_words(words2("?docs"@, query))),
        config.eval ==> accepts(r.machine(), help_message("?play"@)) && accepts(r.machine(), help_message("?eval"@)),
        config.eval ==> forall|code: Seq<char>| code.len() > 0
            ==> #[trigger] accepts(r.machine(), join_words(words2("?play"@, code))),
        config.eval ==> forall|code: Seq<char>| code.len() > 0
            ==> #[trigger] accepts(r.machine(), join_words(words2("?eval"@, code))),
        exists|s: usize| #[trigger] answers(r.machine(), r.handlers(), s,
            Command { kind: CommandKind::Protected, guard: Guard::Moderator, handler: Handler::Ban })
            && forall|user: Seq<char>, hours: Seq<char>, reason: Seq<char>|
                user.len() > 0 && no_space(user) && hours.len() > 0 && no_space(hours) && reason.len() > 0
                ==> #[trigger] reads(r.machine(), 0, join_words(words4("?ban"@, user, hours, reason)), s),
        exists|s: usize| #[trigger] answers(r.machine(), r.handlers(), s,
            Command { kind: CommandKind::Protected, guard: Guard::Moderator, handler: Handler::WelcomePost })
            && forall|channel: Seq<char>| channel.len() > 0 && no_space(channel)
                ==> #[trigger] reads(r.machine(), 0, join_words(words2("?CoC"@, channel)), s),
        exists|s: usize| #[trigger] answers(r.machine(), r.handlers(), s,
            Command { kind: CommandKind::Protected, guard: Guard::Moderator, handler: Handler::WelcomeHelp })
            && reads(r.machine(), 0, help_message("?CoC"@), s),
        exists|s: usize| #[trigger] answers(r.machine(), r.handlers(), s,
            Command { kind: CommandKind::Help, guard: Guard::Anyone, handler: Handler::Nothing })
            && reads(r.machine(), 0, "?help"@, s),
{
    let mut cmds: Commands<Command> = Commands::new();
    let ghost h0 = cmds.handlers();
    let ghost enabled = |h: Handler| handler_enabled(config.tags, config.crates, config.eval, h) || h == Handler::Nothing;
    proof {
        lemma_adds_refl(h0, enabled);
    }
    if config.tags {
        let ghost hb = cmds.handlers();
        register_tags(&mut cmds);
        proof { lemma_adds_trans(h0, hb, cmds.handlers(), enabled, tag_handlers(), enabled); }
    }
    if config.crates {
        let ghost hb = cmds.handlers();
        register_crates(&mut cmds);
        proof { lemma_adds_trans(h0, hb, cmds.handlers(), enabled, crate_handlers(), enabled); }
    }
    if config.eval {
        let ghost hb = cmds.handlers();
        register_eval(&mut cmds);
        proof { lemma_adds_trans(h0, hb, cmds.handlers(), enabled, eval_handlers(), enabled); }
    }
    let ghost hb = cmds.handlers();
    register_moderation(&mut cmds);
    let ghost m_mod = cmds.machine();
    proof { lemma_adds_trans(h0, hb, cmds.handlers(), enabled, moderation_handlers(), enabled); }
    proof {
        reveal_strlit("?help");
        assert(plain_text("?help"@));
        lemma_plain_pattern("?help"@);
        lemma_literal_kind("?help"@);
        crate::commands::lemma_words_single("?help"@);
        assert(fills_all(words("?help"@), seq!["?help"@], 1));
        assert(join_words(seq!["?help"@]) == "?help"@);
    }
    let help = Command::help();
    let ghost hb = cmds.handlers();
    register(&mut cmds, "?help", help);
    proof {
        lemma_adds_step(h0, hb, cmds.handlers(), enabled, help);
        // `?help` ends in a state reading only `p`, apart from the
        // moderation commands' states.
        assert(literal_word(words("?help"@).last()) && words("?help"@).last() == "?help"@
            && "?help"@.len() == 5 && "?help"@.last() == 'p');
        let m = cmds.machine();
        let rh = choose|x: usize| #[trigger] message_end(hb, m, cmds.handlers(), words("?help"@), x, help);
        assert(answers(m, cmds.handlers(), rh, help));
        assert(!m[rh as int].expected.has(' ') && !m[rh as int].expected.has('a') && !m[rh as int].expected.has('C'));
        assert(reads(m, 0, join_words(seq!["?help"@]), rh));
        let cb = Command { kind: CommandKind::Protected, guard: Guard::Moderator, handler: Handler::Ban };
        let cw = Command { kind: CommandKind::Protected, guard: Guard::Moderator, handler: Handler::WelcomePost };
        let ch = Command { kind: CommandKind::Protected, guard: Guard::Moderator, handler: Handler::WelcomeHelp };
        let sb = choose|x: usize| #[trigger] answers(m_mod, hb, x, cb)
            && m_mod[x as int].expected.has(' ')
            && forall|user: Seq<char>, hours: Seq<char>, reason: Seq<char>|
                user.len() > 0 && no_space(user) && hours.len() > 0 && no_space(hours) && reason.len() > 0
                ==> #[trigger] reads(m_mod, 0, join_words(words4("?ban"@, user, hours, reason)), x);
        let sw = choose|x: usize| #[trigger] answers(m_mod, hb, x, cw)
            && m_mod[x as int].expected.has('a')
            && forall|channel: Seq<char>| channel.len() > 0 && no_space(channel)
                ==> #[trigger] reads(m_mod, 0, join_words(words2("?CoC"@, channel)), x);
        let sh = choose|x: usize| #[trigger] answers(m_mod, hb, x, ch)
            && m_mod[x as int].expected.has('C')
            && reads(m_mod, 0, help_message("?CoC"@), x);
        lemma_answers_kept(m_mod, hb, m, cmds.handlers(), sb, cb, rh, help, ' ');
        lemma_answers_kept(m_mod, hb, m, cmds.handlers(), sw, cw, rh, help, 'a');
        lemma_answers_kept(m_mod, hb, m, cmds.handlers(), sh, ch, rh, help, 'C');
        assert forall|user: Seq<char>, hours: Seq<char>, reason: Seq<char>|
            user.len() > 0 && no_space(user) && hours.len() > 0 && no_space(hours) && reason.len() > 0
            implies #[trigger] reads(m, 0, join_words(words4("?ban"@, user, hours, reason)), sb) by {
            lemma_reads_extends(m_mod, m, 0, join_words(words4("?ban"@, user, hours, reason)), sb);
        }
        assert forall|channel: Seq<char>| channel.len() > 0 && no_space(channel)
            implies #[trigger] reads(m, 0, join_words(words2("?CoC"@, channel)), sw) by {
            lemma_reads_extends(m_mod, m, 0, join_words(words2("?CoC"@, channel)), sw);
        }
        lemma_reads_extends(m_mod, m, 0, help_message("?CoC"@), sh);
    }
    proof {
        assert forall|k: usize| #[trigger] cmds.handlers().contains_key(k) implies cmds.handlers()[k] == documented_command(cmds.handlers()[k].handler)
            && handler_enabled(config.tags, config.crates, config.eval, cmds.handlers()[k].handler) by {
            assert(!h0.contains_key(k));
            let h = cmds.handlers()[k].handler;
            assert(enabled(h));
        }
    }
    cmds
}

} // verus!

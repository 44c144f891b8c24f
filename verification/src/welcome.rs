//! The welcome message: where it is posted, what is remembered of it, and
//! what a reaction to it does.

use vstd::prelude::*;
use crate::parse::{
    IntParseError, decimal_u64, decimal_digits, channel_id_text, parse_u64, u64_to_string,
    channel_id_from_str, lemma_decimal_digits_injective,
};
use crate::api::opt_view;
use crate::strings::same_str;

verus! {

/// Why the welcome message cannot be posted.
#[derive(Clone, Copy, PartialEq, Eq, Debug)]
pub enum WelcomeError {
    MissingChannel,
    InvalidChannel,
}

impl WelcomeError {
    /// The text of the error.
    pub fn text(&self) -> (r: String)
        ensures
            *self == WelcomeError::MissingChannel ==> r@ == "unable to retrieve channel param"@,
            *self == WelcomeError::InvalidChannel ==> r@ == "invalid id format"@,
    {
        match self {
            WelcomeError::MissingChannel => "unable to retrieve channel param".to_owned(),
            WelcomeError::InvalidChannel => "invalid id format".to_owned(),
        }
    }
}

/// The channel that the `channel` parameter names.
pub open spec fn welcome_target(channel: Option<Seq<char>>) -> Result<u64, WelcomeError> {
    match channel {
        None => Err(WelcomeError::MissingChannel),
        Some(c) => match channel_id_text(c) {
            None => Err(WelcomeError::InvalidChannel),
            Some(id) => Ok(id),
        },
    }
}

/// The channel to post the welcome message to, from `?CoC {channel}`.
pub fn welcome_channel(channel: Option<&str>) -> (r: Result<u64, WelcomeError>)
    ensures
        r == welcome_target(opt_view(channel)),
{
    match channel {
        None => Err(WelcomeError::MissingChannel),
        Some(c) => match channel_id_from_str(c) {
            None => Err(WelcomeError::InvalidChannel),
            Some(id) => Ok(id),
        },
    }
}

/// What is stored of a posted welcome message: its id and its channel, as
/// decimal text.
pub struct WelcomeMessage {
    pub message_id: String,
    pub channel_id: String,
}

/// The view of what is stored of a welcome message and of the bot.
pub open spec fn record_view(r: (WelcomeMessage, String)) -> (Seq<char>, Seq<char>, Seq<char>) {
    (r.0.message_id@, r.0.channel_id@, r.1@)
}

/// What is stored of the welcome message `message_id`, posted by `bot_id`
/// in `channel_id`.
pub open spec fn stored(message_id: u64, channel_id: u64, bot_id: u64) -> (Seq<char>, Seq<char>, Seq<char>) {
    (decimal_digits(message_id as nat), decimal_digits(channel_id as nat), decimal_digits(bot_id as nat))
}

/// What to store of a welcome message that was just posted, and of the bot
/// that posted it.
pub fn welcome_record(message_id: u64, channel_id: u64, bot_id: u64) -> (r: (WelcomeMessage, String))
    ensures
        record_view(r) == stored(message_id, channel_id, bot_id),
{
    (
        WelcomeMessage { message_id: u64_to_string(message_id), channel_id: u64_to_string(channel_id) },
        u64_to_string(bot_id),
    )
}

/// What the bot does about a reaction.
pub enum TalkRoleAction {
    /// Nothing.
    Ignore,
    /// Take the reaction away.
    RemoveReaction,
    /// Give the member the talk role (its stored id, read as a number), then
    /// take the reaction away if asked.
    AssignRole { user_id: u64, role: Result<u64, IntParseError>, remove_reaction: bool },
}

/// The check mark.
pub open spec fn check_mark() -> Seq<char> {
    seq!['\u{2705}']
}

/// What the bot does about the reaction `emoji` (its text, for a Unicode
/// emoji) by `user_id` to the message `message_id` in `channel_id`, where
/// `welcome` is the welcome message as stored (id and channel), `talk_role`
/// the stored talk role and `bot_id` the stored id of the bot.
///
/// Reactions to other messages are ignored; any reaction but the check mark
/// on the welcome message is removed; a check mark gives the talk role,
/// when it is stored and the reaction has a user, and is then removed
/// unless it is the bot's own.
pub open spec fn talk_action(
    welcome: Option<(Seq<char>, Seq<char>)>,
    message_id: u64,
    channel_id: u64,
    emoji: Option<Seq<char>>,
    talk_role: Option<Seq<char>>,
    user_id: Option<u64>,
    bot_id: Option<Seq<char>>,
    r: TalkRoleAction,
) -> bool {
    match welcome {
        Some(w) if w.0 == decimal_digits(message_id as nat) && w.1 == decimal_digits(channel_id as nat) => {
            if emoji == Some(check_mark()) {
                match (talk_role, user_id) {
                    (Some(role), Some(u)) => r matches TalkRoleAction::AssignRole { user_id, role: got, remove_reaction } && {
                        &&& user_id == u
                        &&& (decimal_u64(role) matches Some(id) ==> got == Ok::<u64, IntParseError>(id))
                        &&& (decimal_u64(role) is None ==> (got matches Err(e) && crate::parse::parse_error_of(role, e)))
                        &&& remove_reaction == (bot_id matches Some(b) && decimal_digits(u as nat) != b)
                    },
                    _ => r is Ignore,
                }
            } else {
                r is RemoveReaction
            }
        },
        _ => r is Ignore,
    }
}

/// The view of the stored welcome message.
pub open spec fn welcome_view(w: Option<&WelcomeMessage>) -> Option<(Seq<char>, Seq<char>)> {
    match w {
        Some(r) => Some((r.message_id@, r.channel_id@)),
        None => None,
    }
}

/// What the bot does about a reaction; see [`talk_action`].
pub fn talk_role_action(
    welcome: Option<&WelcomeMessage>,
    message_id: u64,
    channel_id: u64,
    emoji: Option<&str>,
    talk_role: Option<&str>,
    user_id: Option<u64>,
    bot_id: Option<&str>,
) -> (r: TalkRoleAction)
    ensures
        talk_action(welcome_view(welcome), message_id, channel_id, opt_view(emoji), opt_view(talk_role), user_id, opt_view(bot_id), r),
{
    let w = match welcome {
        None => return TalkRoleAction::Ignore,
        Some(w) => w,
    };
    let m = u64_to_string(message_id);
    let c = u64_to_string(channel_id);
    if !same_str(m.as_str(), w.message_id.as_str()) || !same_str(c.as_str(), w.channel_id.as_str()) {
        return TalkRoleAction::Ignore;
    }
    let is_check = match emoji {
        Some(e) => same_str(e, "\u{2705}"),
        None => false,
    };
    proof {
        reveal_strlit("\u{2705}");
        assert("\u{2705}"@ =~= check_mark());
    }
    if !is_check {
        return TalkRoleAction::RemoveReaction;
    }
    match (talk_role, user_id) {
        (Some(role), Some(u)) => {
            let parsed = parse_u64(role);
            let role = match parsed {
                Ok(id) => Ok(id),
                Err(e) => Err(e),
            };
            let remove_reaction = match bot_id {
                Some(b) => {
                    let us = u64_to_string(u);
                    !same_str(us.as_str(), b)
                },
                None => false,
            };
            TalkRoleAction::AssignRole { user_id: u, role, remove_reaction }
        },
        _ => TalkRoleAction::Ignore,
    }
}

/// A check mark on the welcome message by the bot itself, which reacts so
/// when it posts the message, gives the bot the talk role and stays.
pub proof fn law_own_check_mark_stays(message_id: u64, channel_id: u64, bot_id: u64, role: Seq<char>, r: TalkRoleAction)
    requires
        ({
            let s = stored(message_id, channel_id, bot_id);
            talk_action(Some((s.0, s.1)), message_id, channel_id, Some(check_mark()), Some(role), Some(bot_id), Some(s.2), r)
        }),
    ensures
        r matches TalkRoleAction::AssignRole { user_id, remove_reaction, .. } && user_id == bot_id && !remove_reaction,
{
}

/// A check mark on the welcome message by a member other than the bot
/// gives the member the talk role and is then removed.
pub proof fn law_member_check_mark_removed(
    message_id: u64,
    channel_id: u64,
    bot_id: u64,
    user_id: u64,
    role: Seq<char>,
    r: TalkRoleAction,
)
    requires
        user_id != bot_id,
        ({
            let s = stored(message_id, channel_id, bot_id);
            talk_action(Some((s.0, s.1)), message_id, channel_id, Some(check_mark()), Some(role), Some(user_id), Some(s.2), r)
        }),
    ensures
        r matches TalkRoleAction::AssignRole { user_id: u, remove_reaction, .. } && u == user_id && remove_reaction,
{
    if decimal_digits(user_id as nat) == decimal_digits(bot_id as nat) {
        lemma_decimal_digits_injective(user_id as nat, bot_id as nat);
    }
}

/// Any other reaction to the welcome message is removed.
pub proof fn law_other_reaction_removed(
    message_id: u64,
    channel_id: u64,
    bot_id: u64,
    emoji: Option<Seq<char>>,
    talk_role: Option<Seq<char>>,
    user_id: Option<u64>,
    r: TalkRoleAction,
)
    requires
        emoji != Some(check_mark()),
        ({
            let s = stored(message_id, channel_id, bot_id);
            talk_action(Some((s.0, s.1)), message_id, channel_id, emoji, talk_role, user_id, Some(s.2), r)
        }),
    ensures
        r is RemoveReaction,
{
}

/// Reactions to any message but the welcome message are left alone.
pub proof fn law_other_message_ignored(
    message_id: u64,
    channel_id: u64,
    bot_id: u64,
    other_message: u64,
    other_channel: u64,
    emoji: Option<Seq<char>>,
    talk_role: Option<Seq<char>>,
    user_id: Option<u64>,
    r: TalkRoleAction,
)
    requires
        other_message != message_id || other_channel != channel_id,
        ({
            let s = stored(message_id, channel_id, bot_id);
            talk_action(Some((s.0, s.1)), other_message, other_channel, emoji, talk_role, user_id, Some(s.2), r)
        }),
    ensures
        r is Ignore,
{
    if decimal_digits(other_message as nat) == decimal_digits(message_id as nat) {
        lemma_decimal_digits_injective(other_message as nat, message_id as nat);
    }
    if decimal_digits(other_channel as nat) == decimal_digits(channel_id as nat) {
        lemma_decimal_digits_injective(other_channel as nat, channel_id as nat);
    }
}

} // verus!

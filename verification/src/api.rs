//! Permissions, the command menu, and the moderation commands that act on
//! a channel or a member.

use vstd::prelude::*;
use crate::parse::{
    IntParseError, decimal_u64, channel_id_text, username_mention, username_parsable, parse_u64,
    parse_username, channel_id_from_str, int_parse_error_text,
};

verus! {

/// Why a permission check failed.
#[derive(Clone, Copy, PartialEq, Eq, Debug)]
pub enum PermissionError {
    /// The message carries no member, so no roles.
    MemberUnavailable,
    /// The stored role id is not a number.
    InvalidRoleId(IntParseError),
}

impl PermissionError {
    /// The text of the error.
    pub fn text(&self) -> (r: String)
        ensures
            *self == PermissionError::MemberUnavailable ==> r@ == "Unable to fetch member"@,
            *self matches PermissionError::InvalidRoleId(e) ==> r@ == crate::parse::int_parse_error_message(e),
    {
        match self {
            PermissionError::MemberUnavailable => "Unable to fetch member".to_owned(),
            PermissionError::InvalidRoleId(e) => int_parse_error_text(*e),
        }
    }
}

/// The roles of a member, when the message carries one.
pub open spec fn roles_view(roles: Option<&[u64]>) -> Option<Seq<u64>> {
    match roles {
        Some(r) => Some(r@),
        None => None,
    }
}

/// Whether the member that sent a message, with the roles `member_roles`,
/// has the role `role`; an error when the message carries no member.
pub fn has_role(member_roles: Option<&[u64]>, role: u64) -> (r: Result<bool, PermissionError>)
    ensures
        member_roles is None ==> r == Err::<bool, PermissionError>(PermissionError::MemberUnavailable),
        member_roles matches Some(roles) ==> r == Ok::<bool, PermissionError>(roles@.contains(role)),
{
    match member_roles {
        None => Err(PermissionError::MemberUnavailable),
        Some(roles) => Ok(contains_role(roles, role)),
    }
}

/// Whether `role` is one of `roles`.
fn contains_role(roles: &[u64], role: u64) -> (r: bool)
    ensures
        r == roles@.contains(role),
{
    let mut i: usize = 0;
    while i < roles.len()
        invariant
            0 <= i <= roles@.len(),
            forall|j: int| 0 <= j < i ==> roles@[j] != role,
        decreases roles@.len() - i,
    {
        if roles[i] == role {
            proof {
                assert(roles@[i as int] == role);
            }
            return true;
        }
        i = i + 1;
    }
    false
}

/// `r` is the outcome of a permission check for the stored role `role`: no
/// role grants nothing; a role id that is not a number, or a message
/// without a member, is an error.
pub open spec fn permission(role: Option<Seq<char>>, roles: Option<Seq<u64>>, r: Result<bool, PermissionError>) -> bool {
    match role {
        None => r == Ok::<bool, PermissionError>(false),
        Some(id) => match decimal_u64(id) {
            None => r matches Err(PermissionError::InvalidRoleId(e)) && crate::parse::parse_error_of(id, e),
            Some(n) => match roles {
                None => r == Err::<bool, PermissionError>(PermissionError::MemberUnavailable),
                Some(rs) => r == Ok::<bool, PermissionError>(rs.contains(n)),
            },
        },
    }
}

/// The view of an optional text.
pub open spec fn opt_view(o: Option<&str>) -> Option<Seq<char>> {
    match o {
        Some(s) => Some(s@),
        None => None,
    }
}

/// Whether a member with the roles `member_roles` has the stored role
/// `role` (its id, as stored); without a stored role, nobody has it.
pub fn check_permission(role: Option<&str>, member_roles: Option<&[u64]>) -> (r: Result<bool, PermissionError>)
    ensures
        permission(opt_view(role), roles_view(member_roles), r),
{
    match role {
        None => Ok(false),
        Some(id) => match parse_u64(id) {
            Err(e) => Err(PermissionError::InvalidRoleId(e)),
            Ok(n) => has_role(member_roles, n),
        },
    }
}

/// One command of the menu.
pub struct MenuEntry {
    pub command: String,
    pub description: String,
    /// Whether the member asking may run the command.
    pub authorized: bool,
}

/// `n` spaces.
pub open spec fn spaces(n: int) -> Seq<char>
    decreases n,
{
    if n <= 0 {
        Seq::empty()
    } else {
        spaces(n - 1).push(' ')
    }
}

/// `s` padded with spaces on the right to 12 characters, as `{:<12}` does.
pub open spec fn padded(s: Seq<char>) -> Seq<char> {
    s + spaces(12 - s.len())
}

/// The menu line of a command.
pub open spec fn menu_line(command: Seq<char>, description: Seq<char>) -> Seq<char> {
    seq!['\t'] + padded(command) + description + seq!['\n']
}

/// The menu lines of the authorized entries, in order.
pub open spec fn menu_lines(entries: Seq<MenuEntry>) -> Seq<char>
    decreases entries.len(),
{
    if entries.len() == 0 {
        Seq::empty()
    } else {
        let e = entries.last();
        menu_lines(entries.drop_last()) + if e.authorized {
            menu_line(e.command@, e.description@)
        } else {
            Seq::empty()
        }
    }
}

/// The whole menu for the entries `entries`.
pub open spec fn menu_text(entries: Seq<MenuEntry>) -> Seq<char> {
    "Commands:\n"@ + menu_lines(entries) + menu_line("?help"@, "This menu"@)
        + "\nType ?help command for more info on a command."@ + "\n\nAdditional Info:\n"@
        + "\tYou can edit your message to the bot and the bot will edit its response."@
}

/// `s` padded with spaces on the right to 12 characters.
fn pad(s: &str) -> (r: String)
    ensures
        r@ == padded(s@),
{
    let mut r = s.to_owned();
    let n = crate::strings::to_chars(s).len();
    let mut k: usize = n;
    proof {
        assert(spaces(0) =~= Seq::<char>::empty());
        assert(r@ =~= s@ + spaces(0));
    }
    while k < 12
        invariant
            n == s@.len(),
            n <= k,
            k <= 12 || k == n,
            r@ == s@ + spaces(k - n),
        decreases 12 - k,
    {
        r.push(' ');
        k = k + 1;
        proof {
            assert(spaces(k - n) == spaces(k - n - 1).push(' '));
            assert(r@ =~= s@ + spaces(k - n));
        }
    }
    proof {
        if n >= 12 {
            assert(spaces(12 - n) =~= Seq::<char>::empty());
        }
        assert(k - n == 12 - n || (n >= 12 && k == n));
    }
    r
}

/// One menu line.
fn line(command: &str, description: &str) -> (r: String)
    ensures
        r@ == menu_line(command@, description@),
{
    let mut r = "\t".to_owned();
    let p = pad(command);
    r.append(p.as_str());
    r.append(description);
    r.append("\n");
    proof {
        reveal_strlit("\t");
        reveal_strlit("\n");
        assert(r@ =~= menu_line(command@, description@));
    }
    r
}

/// The menu of the commands that the member asking may run, then the help
/// command itself and a note on editing.
pub fn main_menu(entries: &[MenuEntry]) -> (r: String)
    ensures
        r@ == menu_text(entries@),
{
    let mut lines = String::new();
    let mut i: usize = 0;
    proof {
        assert(entries@.take(0) =~= Seq::<MenuEntry>::empty());
    }
    while i < entries.len()
        invariant
            0 <= i <= entries@.len(),
            lines@ == menu_lines(entries@.take(i as int)),
        decreases entries@.len() - i,
    {
        proof {
            assert(entries@.take(i + 1).drop_last() =~= entries@.take(i as int));
        }
        if entries[i].authorized {
            let l = line(entries[i].command.as_str(), entries[i].description.as_str());
            lines.append(l.as_str());
        }
        proof {
            assert(lines@ =~= menu_lines(entries@.take(i + 1)));
        }
        i = i + 1;
    }
    proof {
        assert(entries@.take(entries@.len() as int) =~= entries@);
    }
    let mut menu = "Commands:\n".to_owned();
    menu.append(lines.as_str());
    let help = line("?help", "This menu");
    menu.append(help.as_str());
    menu.append("\nType ?help command for more info on a command.");
    menu.append("\n\nAdditional Info:\n");
    menu.append("\tYou can edit your message to the bot and the bot will edit its response.");
    menu
}

/// Why a slow mode command cannot run.
#[derive(Clone, Copy, PartialEq, Eq, Debug)]
pub enum SlowModeError {
    MissingSeconds,
    InvalidSeconds(IntParseError),
    MissingChannel,
    InvalidChannel,
}

impl SlowModeError {
    /// The text of the error.
    pub fn text(&self) -> (r: String)
        ensures
            *self == SlowModeError::MissingSeconds ==> r@ == "unable to retrieve seconds param"@,
            *self matches SlowModeError::InvalidSeconds(e) ==> r@ == crate::parse::int_parse_error_message(e),
            *self == SlowModeError::MissingChannel ==> r@ == "unable to retrieve channel param"@,
            *self == SlowModeError::InvalidChannel ==> r@ == "invalid id format"@,
    {
        match self {
            SlowModeError::MissingSeconds => "unable to retrieve seconds param".to_owned(),
            SlowModeError::InvalidSeconds(e) => int_parse_error_text(*e),
            SlowModeError::MissingChannel => "unable to retrieve channel param".to_owned(),
            SlowModeError::InvalidChannel => "invalid id format".to_owned(),
        }
    }
}

/// `r` is the slow mode to set: the channel and the delay in seconds, read
/// from the `seconds` and `channel` parameters, in that order, or why they
/// cannot be read.
pub open spec fn slow_mode_setting(seconds: Option<Seq<char>>, channel: Option<Seq<char>>, r: Result<(u64, u64), SlowModeError>) -> bool {
    match seconds {
        None => r == Err::<(u64, u64), SlowModeError>(SlowModeError::MissingSeconds),
        Some(s) => match decimal_u64(s) {
            None => r matches Err(SlowModeError::InvalidSeconds(e)) && crate::parse::parse_error_of(s, e),
            Some(secs) => match channel {
                None => r == Err::<(u64, u64), SlowModeError>(SlowModeError::MissingChannel),
                Some(c) => match channel_id_text(c) {
                    None => r == Err::<(u64, u64), SlowModeError>(SlowModeError::InvalidChannel),
                    Some(id) => r == Ok::<(u64, u64), SlowModeError>((id, secs)),
                },
            },
        },
    }
}

/// Reads the parameters of `?slowmode {channel} {seconds}`: the channel id
/// and the delay, where 0 turns slow mode off.
pub fn slow_mode_plan(seconds: Option<&str>, channel: Option<&str>) -> (r: Result<(u64, u64), SlowModeError>)
    ensures
        slow_mode_setting(opt_view(seconds), opt_view(channel), r),
{
    let s = match seconds {
        None => return Err(SlowModeError::MissingSeconds),
        Some(s) => s,
    };
    let secs = match parse_u64(s) {
        Err(e) => return Err(SlowModeError::InvalidSeconds(e)),
        Ok(n) => n,
    };
    let c = match channel {
        None => return Err(SlowModeError::MissingChannel),
        Some(c) => c,
    };
    match channel_id_from_str(c) {
        None => Err(SlowModeError::InvalidChannel),
        Some(id) => Ok((id, secs)),
    }
}

/// Why a kick or a ban finds no member.
#[derive(Clone, Copy, PartialEq, Eq, Debug)]
pub enum UserParamError {
    MissingUser,
    InvalidUser,
}

impl UserParamError {
    /// The text of the error.
    pub fn text(&self) -> (r: String)
        ensures
            *self == UserParamError::MissingUser ==> r@ == "unable to retrieve user param"@,
            *self == UserParamError::InvalidUser ==> r@ == "unable to retrieve user id"@,
    {
        match self {
            UserParamError::MissingUser => "unable to retrieve user param".to_owned(),
            UserParamError::InvalidUser => "unable to retrieve user id".to_owned(),
        }
    }
}

/// The member a `user` parameter names.
pub open spec fn user_target(user: Option<Seq<char>>) -> Result<u64, UserParamError> {
    match user {
        None => Err(UserParamError::MissingUser),
        Some(u) => match username_mention(u) {
            None => Err(UserParamError::InvalidUser),
            Some(id) => Ok(id),
        },
    }
}

/// The member to kick: the user id of the mention in the `user` parameter.
pub fn kick_target(user: Option<&str>) -> (r: Result<u64, UserParamError>)
    requires
        user matches Some(u) ==> username_parsable(u@),
    ensures
        r == user_target(opt_view(user)),
{
    match user {
        None => Err(UserParamError::MissingUser),
        Some(u) => match parse_username(u) {
            None => Err(UserParamError::InvalidUser),
            Some(id) => Ok(id),
        },
    }
}

} // verus!

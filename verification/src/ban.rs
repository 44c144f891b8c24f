//! Temporary bans: reading a ban command, the message to the banned user,
//! and the bans that have run out.

use vstd::prelude::*;
use crate::parse::{
    IntParseError, decimal_u64, decimal_digits, username_parsable, parse_u64, u64_to_string,
    int_parse_error_text, int_parse_error_message, parse_error_of,
};
use crate::api::{UserParamError, user_target, kick_target, opt_view};
use crate::command_history::HOUR;

verus! {

/// Why a ban command cannot run.
#[derive(Clone, Copy, PartialEq, Eq, Debug)]
pub enum BanError {
    /// The `user` parameter is missing or names nobody.
    User(UserParamError),
    MissingHours,
    InvalidHours(IntParseError),
    MissingReason,
}

impl BanError {
    /// The text of the error.
    pub fn text(&self) -> (r: String)
        ensures
            *self matches BanError::User(UserParamError::MissingUser) ==> r@ == "unable to retrieve user param"@,
            *self matches BanError::User(UserParamError::InvalidUser) ==> r@ == "unable to retrieve user id"@,
            *self == BanError::MissingHours ==> r@ == "unable to retrieve hours param"@,
            *self matches BanError::InvalidHours(e) ==> r@ == int_parse_error_message(e),
            *self == BanError::MissingReason ==> r@ == "unable to retrieve reason param"@,
    {
        match self {
            BanError::User(e) => e.text(),
            BanError::MissingHours => "unable to retrieve hours param".to_owned(),
            BanError::InvalidHours(e) => int_parse_error_text(*e),
            BanError::MissingReason => "unable to retrieve reason param".to_owned(),
        }
    }

    /// What the bot replies before it gives up: the parse error of the
    /// hours; nothing for the other errors.
    pub fn reply(&self) -> (r: Option<String>)
        ensures
            *self matches BanError::InvalidHours(e) ==> (r matches Some(t) && t@ == int_parse_error_message(e)),
            !(*self is InvalidHours) ==> r is None,
    {
        match self {
            BanError::InvalidHours(e) => Some(int_parse_error_text(*e)),
            _ => None,
        }
    }
}

/// A ban to carry out.
pub struct BanPlan {
    pub user_id: u64,
    pub hours: u64,
    pub reason: String,
}

/// `r` is the ban that the parameters `user`, `hours` and `reason` ask
/// for, read in that order, or why they cannot be read.
pub open spec fn ban_request(
    user: Option<Seq<char>>,
    hours: Option<Seq<char>>,
    reason: Option<Seq<char>>,
    r: Result<BanPlan, BanError>,
) -> bool {
    match user_target(user) {
        Err(e) => r == Err::<BanPlan, BanError>(BanError::User(e)),
        Ok(id) => match hours {
            None => r == Err::<BanPlan, BanError>(BanError::MissingHours),
            Some(h) => match decimal_u64(h) {
                None => r matches Err(BanError::InvalidHours(e)) && parse_error_of(h, e),
                Some(n) => match reason {
                    None => r == Err::<BanPlan, BanError>(BanError::MissingReason),
                    Some(why) => r matches Ok(p) && p.user_id == id && p.hours == n && p.reason@ == why,
                },
            },
        },
    }
}

/// Reads the parameters of `?ban {user} {hours} reason...`.
pub fn temp_ban_plan(user: Option<&str>, hours: Option<&str>, reason: Option<&str>) -> (r: Result<BanPlan, BanError>)
    requires
        user matches Some(u) ==> username_parsable(u@),
    ensures
        ban_request(opt_view(user), opt_view(hours), opt_view(reason), r),
{
    let user_id = match kick_target(user) {
        Err(e) => return Err(BanError::User(e)),
        Ok(id) => id,
    };
    let h = match hours {
        None => return Err(BanError::MissingHours),
        Some(h) => h,
    };
    let hours = match parse_u64(h) {
        Err(e) => return Err(BanError::InvalidHours(e)),
        Ok(n) => n,
    };
    match reason {
        None => Err(BanError::MissingReason),
        Some(why) => Ok(BanPlan { user_id, hours, reason: why.to_owned() }),
    }
}

/// The message sent to a banned user.
pub open spec fn ban_text(reason: Seq<char>, hours: u64) -> Seq<char> {
    "You have been banned from The Rust Programming Language discord server for "@ + reason
        + ". The ban will expire in "@ + decimal_digits(hours as nat) + " hours."@
}

/// The message sent to a user banned for `hours` hours for `reason`.
pub fn ban_message(reason: &str, hours: u64) -> (r: String)
    ensures
        r@ == ban_text(reason@, hours),
{
    let mut r = "You have been banned from The Rust Programming Language discord server for ".to_owned();
    r.append(reason);
    r.append(". The ban will expire in ");
    let h = u64_to_string(hours);
    r.append(h.as_str());
    r.append(" hours.");
    r
}

/// The help text of the ban command.
pub fn ban_help() -> (r: String)
    ensures
        r@ == "\nBan a user for a temporary amount of time\n```\n?ban {user} {hours} reason...\n```\n**Example:**\n```\n?ban @someuser 24 violating the code of conduct\n```\nwill ban a user for 24 hours and send them the following message:\n```\n"@
            + ban_text("violating the code of conduct"@, 24) + "\n```\n"@,
{
    let mut r = "\nBan a user for a temporary amount of time\n```\n?ban {user} {hours} reason...\n```\n**Example:**\n```\n?ban @someuser 24 violating the code of conduct\n```\nwill ban a user for 24 hours and send them the following message:\n```\n".to_owned();
    let m = ban_message("violating the code of conduct", 24);
    r.append(m.as_str());
    r.append("\n```\n");
    r
}

/// How long a ban of `hours` hours lasts, in seconds.
pub fn ban_seconds(hours: u64) -> (r: u64)
    requires
        hours * HOUR <= u64::MAX,
    ensures
        r == hours * HOUR,
{
    hours * HOUR
}

/// What to unban: a guild and a user in it.
pub struct Unban {
    pub guild_id: u64,
    pub user_id: u64,
}

/// A recorded ban that has run out: the user and the guild, as stored.
pub struct ExpiredBan {
    pub user_id: String,
    pub guild_id: String,
}

/// The unbans of the expired bans `rows`, in order, up to the first row
/// whose guild or user is not a number.
pub open spec fn unbans(rows: Seq<ExpiredBan>) -> Seq<Unban>
    decreases rows.len(),
{
    if rows.len() == 0 {
        Seq::empty()
    } else {
        match (decimal_u64(rows[0].guild_id@), decimal_u64(rows[0].user_id@)) {
            (Some(g), Some(u)) => seq![Unban { guild_id: g, user_id: u }] + unbans(rows.drop_first()),
            _ => Seq::empty(),
        }
    }
}

/// Whether every row of `rows` holds numbers.
pub open spec fn all_readable(rows: Seq<ExpiredBan>) -> bool {
    forall|i: int| 0 <= i < rows.len() ==> decimal_u64((#[trigger] rows[i]).guild_id@) is Some
        && decimal_u64(rows[i].user_id@) is Some
}

/// `e` is the error of reading the row `row`: of its guild, or else of its
/// user.
pub open spec fn row_error(row: ExpiredBan, e: IntParseError) -> bool {
    if decimal_u64(row.guild_id@) is None {
        parse_error_of(row.guild_id@, e)
    } else {
        decimal_u64(row.user_id@) is None && parse_error_of(row.user_id@, e)
    }
}

/// What to unban for the expired bans `rows`: the unbans in order, up to
/// the first row that cannot be read, and the parse error of that row.
pub fn unban_plan(rows: &[ExpiredBan]) -> (r: (Vec<Unban>, Option<IntParseError>))
    ensures
        r.0@ == unbans(rows@),
        (r.1 is None) == all_readable(rows@),
        r.1 matches Some(e) ==> r.0@.len() < rows@.len() && row_error(rows@[r.0@.len() as int], e),
{
    let mut out: Vec<Unban> = Vec::new();
    let mut i: usize = 0;
    proof {
        assert(rows@.skip(0) =~= rows@);
        assert(out@ + unbans(rows@) =~= unbans(rows@));
    }
    while i < rows.len()
        invariant
            0 <= i <= rows@.len(),
            all_readable(rows@.take(i as int)),
            unbans(rows@) == out@ + unbans(rows@.skip(i as int)),
            out@.len() == i,
        decreases rows@.len() - i,
    {
        proof {
            assert(rows@.skip(i as int).drop_first() =~= rows@.skip(i + 1));
            assert(rows@.skip(i as int)[0] == rows@[i as int]);
        }
        let guild = match parse_u64(rows[i].guild_id.as_str()) {
            Err(e) => {
                proof {
                    assert(!all_readable(rows@)) by {
                        assert(decimal_u64(rows@[i as int].guild_id@) is None);
                    }
                    assert(unbans(rows@.skip(i as int)) =~= Seq::<Unban>::empty());
                    assert(out@ + Seq::<Unban>::empty() =~= out@);
                }
                return (out, Some(e));
            },
            Ok(g) => g,
        };
        let user = match parse_u64(rows[i].user_id.as_str()) {
            Err(e) => {
                proof {
                    assert(!all_readable(rows@)) by {
                        assert(decimal_u64(rows@[i as int].user_id@) is None);
                    }
                    assert(unbans(rows@.skip(i as int)) =~= Seq::<Unban>::empty());
                    assert(out@ + Seq::<Unban>::empty() =~= out@);
                }
                return (out, Some(e));
            },
            Ok(u) => u,
        };
        let ghost before = out@;
        out.push(Unban { guild_id: guild, user_id: user });
        proof {
            assert(out@ + unbans(rows@.skip(i + 1)) =~= before + unbans(rows@.skip(i as int)));
            assert forall|k: int| 0 <= k < i + 1 implies decimal_u64((#[trigger] rows@.take(i + 1)[k]).guild_id@) is Some
                && decimal_u64(rows@.take(i + 1)[k].user_id@) is Some by {
                if k < i {
                    assert(rows@.take(i + 1)[k] == rows@.take(i as int)[k]);
                }
            }
        }
        i = i + 1;
    }
    proof {
        assert(rows@.take(rows@.len() as int) =~= rows@);
        assert(rows@.skip(rows@.len() as int) =~= Seq::<ExpiredBan>::empty());
        assert(out@ + Seq::<Unban>::empty() =~= out@);
    }
    (out, None)
}

} // verus!

//! Reading numbers and Discord mentions out of command parameters.

use vstd::prelude::*;
use std::str::FromStr;
use crate::strings::has_prefix;
use crate::charset::is_ascii_char;

verus! {

/// The number of bytes of the UTF-8 encoding of `s`.
pub open spec fn byte_len(s: Seq<char>) -> nat {
    vstd::utf8::encode_utf8(s).len()
}

/// The encoding of two texts one after the other is the two encodings one
/// after the other.
pub proof fn lemma_encode_concat(a: Seq<char>, b: Seq<char>)
    ensures
        vstd::utf8::encode_utf8(a + b) == vstd::utf8::encode_utf8(a) + vstd::utf8::encode_utf8(b),
    decreases a.len(),
{
    if a.len() == 0 {
        assert(a + b =~= b);
        assert(vstd::utf8::encode_utf8(a) =~= Seq::<u8>::empty());
        assert(vstd::utf8::encode_utf8(a) + vstd::utf8::encode_utf8(b) =~= vstd::utf8::encode_utf8(b));
    } else {
        assert((a + b).drop_first() =~= a.drop_first() + b);
        assert((a + b)[0] == a[0]);
        lemma_encode_concat(a.drop_first(), b);
        assert(vstd::utf8::encode_utf8(a + b) =~= vstd::utf8::encode_utf8(a) + vstd::utf8::encode_utf8(b));
    }
}

/// `c` is one of `0` to `9`.
pub open spec fn is_digit(c: char) -> bool {
    48 <= (c as u32) && (c as u32) <= 57
}

/// Every character of `s` is a digit.
pub open spec fn all_digits(s: Seq<char>) -> bool {
    forall|i: int| 0 <= i < s.len() ==> #[trigger] is_digit(s[i])
}

/// The value of a string of decimal digits.
pub open spec fn digits_value(s: Seq<char>) -> nat
    decreases s.len(),
{
    if s.len() == 0 {
        0
    } else {
        digits_value(s.drop_last()) * 10 + ((s.last() as u32) - 48) as nat
    }
}

/// The digits that `u64::from_str` reads: `s` without one leading `+`.
pub open spec fn digit_part(s: Seq<char>) -> Seq<char> {
    if s.len() > 0 && s[0] == '+' {
        s.drop_first()
    } else {
        s
    }
}

/// The number that `u64::from_str` reads in `s`: an optional `+` and one or
/// more decimal digits, whose value fits in a `u64`.
pub open spec fn decimal_u64(s: Seq<char>) -> Option<u64> {
    let d = digit_part(s);
    if d.len() > 0 && all_digits(d) && digits_value(d) <= u64::MAX {
        Some(digits_value(d) as u64)
    } else {
        None
    }
}

/// The decimal digits of `n`, without leading zeros.
pub open spec fn decimal_digits(n: nat) -> Seq<char>
    decreases n,
{
    if n < 10 {
        seq![((n + 48) as u32) as char]
    } else {
        decimal_digits(n / 10).push((((n % 10) + 48) as u32) as char)
    }
}

/// The decimal digits of a number are never empty.
pub proof fn lemma_decimal_digits_len(n: nat)
    ensures
        decimal_digits(n).len() >= 1,
        n >= 10 ==> decimal_digits(n).len() >= 2,
    decreases n,
{
    if n >= 10 {
        lemma_decimal_digits_len(n / 10);
    }
}

/// Different numbers have different decimal digits.
pub proof fn lemma_decimal_digits_injective(a: nat, b: nat)
    requires
        decimal_digits(a) == decimal_digits(b),
    ensures
        a == b,
    decreases a,
{
    lemma_decimal_digits_len(a);
    lemma_decimal_digits_len(b);
    let da = decimal_digits(a);
    let db = decimal_digits(b);
    if a < 10 && b < 10 {
        assert(da[0] == db[0]);
        assert((((a + 48) as u32) as char) as u32 == a + 48);
        assert((((b + 48) as u32) as char) as u32 == b + 48);
    } else if a < 10 {
        assert(da.len() == 1);
    } else if b < 10 {
        assert(db.len() == 1);
    } else {
        assert(da.last() == db.last());
        assert(da.drop_last() == decimal_digits(a / 10));
        assert(db.drop_last() == decimal_digits(b / 10));
        lemma_decimal_digits_injective(a / 10, b / 10);
        assert((((a % 10 + 48) as u32) as char) as u32 == a % 10 + 48);
        assert((((b % 10 + 48) as u32) as char) as u32 == b % 10 + 48);
    }
}

/// Why a number could not be read.
#[derive(Clone, Copy, PartialEq, Eq, Debug)]
pub enum IntParseError {
    /// The text is empty.
    Empty,
    /// The text holds something other than digits.
    InvalidDigit,
    /// The number does not fit.
    PosOverflow,
    /// Any other reason that the standard library gives.
    Other,
}

/// What is known of the error `e` of reading `s` as a number: it is
/// `Empty` exactly for an empty text; a number of digits only that does not
/// fit gives `PosOverflow`; a text that is not digits, after one optional
/// `+`, and is too short for its digits to overflow, gives `InvalidDigit`.
/// Which of the two comes first in a long text with both is not known.
pub open spec fn parse_error_of(s: Seq<char>, e: IntParseError) -> bool {
    &&& (e == IntParseError::Empty) == (s.len() == 0)
    &&& (s.len() > 0 && digit_part(s).len() > 0 && all_digits(digit_part(s)) && digits_value(digit_part(s)) > u64::MAX)
        ==> e == IntParseError::PosOverflow
    &&& (s.len() > 0 && !(digit_part(s).len() > 0 && all_digits(digit_part(s))) && digit_part(s).len() <= 19)
        ==> e == IntParseError::InvalidDigit
}

/// `u64::from_str`, with the kind of its error.
#[verifier::external_body]
pub(crate) fn parse_u64(s: &str) -> (r: Result<u64, IntParseError>)
    ensures
        (r is Ok) == (decimal_u64(s@) is Some),
        r matches Ok(v) ==> decimal_u64(s@) == Some(v),
        r matches Err(e) ==> parse_error_of(s@, e),
{
    match u64::from_str(s) {
        Ok(v) => Ok(v),
        Err(e) => Err(match e.kind() {
            std::num::IntErrorKind::Empty => IntParseError::Empty,
            std::num::IntErrorKind::InvalidDigit => IntParseError::InvalidDigit,
            std::num::IntErrorKind::PosOverflow => IntParseError::PosOverflow,
            _ => IntParseError::Other,
        }),
    }
}

/// `u64::to_string`: the decimal digits of `n`.
#[verifier::external_body]
pub(crate) fn u64_to_string(n: u64) -> (r: String)
    ensures
        r@ == decimal_digits(n as nat),
{
    n.to_string()
}

/// What `serenity::utils::parse_username` reads in a user mention `<@id>` or
/// `<@!id>`: the text between the prefix and the last character, as a
/// number.  Texts shorter than four bytes hold no mention.
pub open spec fn username_mention(s: Seq<char>) -> Option<u64> {
    if byte_len(s) < 4 {
        None
    } else if has_prefix(s, seq!['<', '@', '!']) {
        decimal_u64(s.subrange(3, s.len() - 1))
    } else if has_prefix(s, seq!['<', '@']) {
        decimal_u64(s.subrange(2, s.len() - 1))
    } else {
        None
    }
}

/// The inputs on which `serenity::utils::parse_username` does not panic:
/// it cuts the last byte off a text that starts with `<@`, which fails
/// when the last character takes more than one byte.
pub open spec fn username_parsable(s: Seq<char>) -> bool {
    !(byte_len(s) >= 4 && has_prefix(s, seq!['<', '@']) && !is_ascii_char(s.last()))
}

/// What `ChannelId::from_str` reads: a channel mention `<#id>`, or else the
/// whole text as a number.
pub open spec fn channel_id_text(s: Seq<char>) -> Option<u64> {
    if byte_len(s) >= 4 && has_prefix(s, seq!['<', '#']) && s.last() == '>' {
        match decimal_u64(s.subrange(2, s.len() - 1)) {
            Some(id) => Some(id),
            None => decimal_u64(s),
        }
    } else {
        decimal_u64(s)
    }
}

/// Whether `serenity::utils::parse_username` can read `s` without
/// panicking.
pub fn is_parsable_mention(s: &str) -> (r: bool)
    requires
        byte_len(s@) <= usize::MAX,
    ensures
        r == username_parsable(s@),
{
    if s.len() < 4 {
        return true;
    }
    let chars = crate::strings::to_chars(s);
    let prefix = ['<', '@'];
    proof {
        assert(prefix@ =~= seq!['<', '@']);
    }
    if !crate::strings::starts_with(chars.as_slice(), prefix.as_slice()) {
        return true;
    }
    let last = chars[chars.len() - 1];
    (last as u32) < 128
}

/// `serenity::utils::parse_username`: the user id of a mention.
#[verifier::external_body]
pub(crate) fn parse_username(mention: &str) -> (r: Option<u64>)
    requires
        username_parsable(mention@),
    ensures
        r == username_mention(mention@),
{
    serenity::utils::parse_username(mention)
}

/// `serenity::model::id::ChannelId::from_str`: the channel id of a mention
/// or of a plain number.
#[verifier::external_body]
pub(crate) fn channel_id_from_str(s: &str) -> (r: Option<u64>)
    ensures
        r == channel_id_text(s@),
{
    serenity::model::id::ChannelId::from_str(s).ok().map(|id| id.0)
}

/// The text that the standard library shows for a failed number parse.
pub open spec fn int_parse_error_message(e: IntParseError) -> Seq<char> {
    match e {
        IntParseError::Empty => "cannot parse integer from empty string"@,
        IntParseError::InvalidDigit => "invalid digit found in string"@,
        IntParseError::PosOverflow => "number too large to fit in target type"@,
        IntParseError::Other => "invalid number"@,
    }
}

/// The text that the standard library shows for a failed number parse.
pub fn int_parse_error_text(e: IntParseError) -> (r: String)
    ensures
        r@ == int_parse_error_message(e),
{
    match e {
        IntParseError::Empty => "cannot parse integer from empty string".to_owned(),
        IntParseError::InvalidDigit => "invalid digit found in string".to_owned(),
        IntParseError::PosOverflow => "number too large to fit in target type".to_owned(),
        IntParseError::Other => "invalid number".to_owned(),
    }
}

} // verus!

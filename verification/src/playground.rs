//! Running Rust code on the Rust playground: the request that a command
//! builds from its options, and the reply that the bot gives.

use vstd::prelude::*;
use crate::strings::{same_str, contains_str, occurs_in, to_chars};
use crate::parse::{byte_len, lemma_encode_concat};

verus! {

/// The longest output shown inline, in lines.
pub const MAX_OUTPUT_LINES: usize = 45;

/// Release channel of the compiler.
#[derive(Clone, Copy, PartialEq, Eq, Debug)]
pub enum Channel {
    Stable,
    Beta,
    Nightly,
}

/// Rust edition.
#[derive(Clone, Copy, PartialEq, Eq, Debug)]
pub enum Edition {
    E2015,
    E2018,
    E2021,
    E2024,
}

/// Kind of crate to build.
#[derive(Clone, Copy, PartialEq, Eq, Debug)]
pub enum CrateType {
    Binary,
    Library,
}

/// Compilation mode.
#[derive(Clone, Copy, PartialEq, Eq, Debug)]
pub enum Mode {
    Debug,
    Release,
}

/// The name of a channel, as the playground spells it.
pub open spec fn channel_name(c: Channel) -> Seq<char> {
    match c {
        Channel::Stable => "stable"@,
        Channel::Beta => "beta"@,
        Channel::Nightly => "nightly"@,
    }
}

/// The name of an edition, as the playground spells it.
pub open spec fn edition_name(e: Edition) -> Seq<char> {
    match e {
        Edition::E2015 => "2015"@,
        Edition::E2018 => "2018"@,
        Edition::E2021 => "2021"@,
        Edition::E2024 => "2024"@,
    }
}

/// The name of a mode, as the playground spells it.
pub open spec fn mode_name(m: Mode) -> Seq<char> {
    match m {
        Mode::Debug => "debug"@,
        Mode::Release => "release"@,
    }
}

/// The channel named `s`, if any.
pub open spec fn channel_named(s: Seq<char>) -> Option<Channel> {
    if s == "stable"@ {
        Some(Channel::Stable)
    } else if s == "beta"@ {
        Some(Channel::Beta)
    } else if s == "nightly"@ {
        Some(Channel::Nightly)
    } else {
        None
    }
}

/// The edition named `s`, if any.
pub open spec fn edition_named(s: Seq<char>) -> Option<Edition> {
    if s == "2015"@ {
        Some(Edition::E2015)
    } else if s == "2018"@ {
        Some(Edition::E2018)
    } else if s == "2021"@ {
        Some(Edition::E2021)
    } else if s == "2024"@ {
        Some(Edition::E2024)
    } else {
        None
    }
}

/// The mode named `s`, if any.
pub open spec fn mode_named(s: Seq<char>) -> Option<Mode> {
    if s == "debug"@ {
        Some(Mode::Debug)
    } else if s == "release"@ {
        Some(Mode::Release)
    } else {
        None
    }
}

/// The error for an unknown channel name.
pub open spec fn channel_error(s: Seq<char>) -> Seq<char> {
    "invalid release channel `"@ + s + "`"@
}

/// The error for an unknown edition name.
pub open spec fn edition_error(s: Seq<char>) -> Seq<char> {
    "invalid edition `"@ + s + "`"@
}

/// The error for an unknown mode name.
pub open spec fn mode_error(s: Seq<char>) -> Seq<char> {
    "invalid compilation mode `"@ + s + "`"@
}

impl Channel {
    /// Reads a channel name: `stable`, `beta` or `nightly`.
    pub fn from_str(s: &str) -> (r: Result<Channel, String>)
        ensures
            channel_named(s@) matches Some(c) ==> r == Ok::<Channel, String>(c),
            channel_named(s@) is None ==> (r matches Err(e) && e@ == channel_error(s@)),
    {
        if same_str(s, "stable") {
            Ok(Channel::Stable)
        } else if same_str(s, "beta") {
            Ok(Channel::Beta)
        } else if same_str(s, "nightly") {
            Ok(Channel::Nightly)
        } else {
            let mut e = "invalid release channel `".to_owned();
            e.append(s);
            e.append("`");
            Err(e)
        }
    }
}

impl Edition {
    /// Reads an edition: `2015`, `2018`, `2021` or `2024`.
    pub fn from_str(s: &str) -> (r: Result<Edition, String>)
        ensures
            edition_named(s@) matches Some(x) ==> r == Ok::<Edition, String>(x),
            edition_named(s@) is None ==> (r matches Err(e) && e@ == edition_error(s@)),
    {
        if same_str(s, "2015") {
            Ok(Edition::E2015)
        } else if same_str(s, "2018") {
            Ok(Edition::E2018)
        } else if same_str(s, "2021") {
            Ok(Edition::E2021)
        } else if same_str(s, "2024") {
            Ok(Edition::E2024)
        } else {
            let mut e = "invalid edition `".to_owned();
            e.append(s);
            e.append("`");
            Err(e)
        }
    }
}

impl Mode {
    /// Reads a mode: `debug` or `release`.
    pub fn from_str(s: &str) -> (r: Result<Mode, String>)
        ensures
            mode_named(s@) matches Some(x) ==> r == Ok::<Mode, String>(x),
            mode_named(s@) is None ==> (r matches Err(e) && e@ == mode_error(s@)),
    {
        if same_str(s, "debug") {
            Ok(Mode::Debug)
        } else if same_str(s, "release") {
            Ok(Mode::Release)
        } else {
            let mut e = "invalid compilation mode `".to_owned();
            e.append(s);
            e.append("`");
            Err(e)
        }
    }
}

/// The names that a playground link gives to the settings are read back as
/// the same settings by the option parsers.
pub proof fn law_setting_names_read_back(c: Channel, m: Mode, e: Edition)
    ensures
        channel_named(channel_name(c)) == Some(c),
        mode_named(mode_name(m)) == Some(m),
        edition_named(edition_name(e)) == Some(e),
{
    reveal_strlit("stable");
    reveal_strlit("beta");
    reveal_strlit("nightly");
    reveal_strlit("debug");
    reveal_strlit("release");
    reveal_strlit("2015");
    reveal_strlit("2018");
    reveal_strlit("2021");
    reveal_strlit("2024");
    assert("beta"@ != "stable"@) by { assert("beta"@[0] != "stable"@[0]); }
    assert("nightly"@ != "stable"@) by { assert("nightly"@[0] != "stable"@[0]); }
    assert("nightly"@ != "beta"@) by { assert("nightly"@[0] != "beta"@[0]); }
    assert("release"@ != "debug"@) by { assert("release"@[0] != "debug"@[0]); }
    assert("2018"@ != "2015"@) by { assert("2018"@[3] != "2015"@[3]); }
    assert("2021"@ != "2015"@) by { assert("2021"@[2] != "2015"@[2]); }
    assert("2021"@ != "2018"@) by { assert("2021"@[2] != "2018"@[2]); }
    assert("2024"@ != "2015"@) by { assert("2024"@[2] != "2015"@[2]); }
    assert("2024"@ != "2018"@) by { assert("2024"@[2] != "2018"@[2]); }
    assert("2024"@ != "2021"@) by { assert("2024"@[3] != "2021"@[3]); }
}

/// A request to the playground.
pub struct PlaygroundCode {
    pub channel: Channel,
    pub edition: Edition,
    pub code: String,
    pub crate_type: CrateType,
    pub mode: Mode,
    pub tests: bool,
}

/// The link to a gist on the playground with the given settings.
pub open spec fn gist_url(c: Channel, m: Mode, e: Edition, gist: Seq<char>) -> Seq<char> {
    "https://play.rust-lang.org/?version="@ + channel_name(c) + "&mode="@ + mode_name(m)
        + "&edition="@ + edition_name(e) + "&gist="@ + gist
}

impl PlaygroundCode {
    /// A debug build of a binary on nightly, edition 2018, without tests.
    pub fn new(code: String) -> (r: Self)
        ensures
            r.channel == Channel::Nightly,
            r.edition == Edition::E2018,
            r.code == code,
            r.crate_type == CrateType::Binary,
            r.mode == Mode::Debug,
            !r.tests,
    {
        PlaygroundCode {
            channel: Channel::Nightly,
            edition: Edition::E2018,
            code,
            crate_type: CrateType::Binary,
            mode: Mode::Debug,
            tests: false,
        }
    }

    /// The playground link that opens `gist` with this request's settings.
    pub fn url_from_gist(&self, gist: &str) -> (r: String)
        ensures
            r@ == gist_url(self.channel, self.mode, self.edition, gist@),
    {
        let version = match self.channel {
            Channel::Nightly => "nightly",
            Channel::Beta => "beta",
            Channel::Stable => "stable",
        };
        let edition = match self.edition {
            Edition::E2015 => "2015",
            Edition::E2018 => "2018",
            Edition::E2021 => "2021",
            Edition::E2024 => "2024",
        };
        let mode = match self.mode {
            Mode::Debug => "debug",
            Mode::Release => "release",
        };
        let mut r = "https://play.rust-lang.org/?version=".to_owned();
        r.append(version);
        r.append("&mode=");
        r.append(mode);
        r.append("&edition=");
        r.append(edition);
        r.append("&gist=");
        r.append(gist);
        r
    }
}

/// An option's text, or its default.
pub open spec fn option_or(o: Option<Seq<char>>, default: Seq<char>) -> Seq<char> {
    match o {
        Some(s) => s,
        None => default,
    }
}

/// The view of an optional text.
pub open spec fn opt_view(o: Option<&str>) -> Option<Seq<char>> {
    match o {
        Some(s) => Some(s@),
        None => None,
    }
}

/// One line of the option errors: the error and a newline, or nothing when
/// the option is valid.
pub open spec fn error_line<T>(parsed: Option<T>, error: Seq<char>) -> Seq<char> {
    if parsed is Some { Seq::empty() } else { error + seq!['\n'] }
}

/// The request for `code` with the `channel`, `mode` and `edition` options
/// (by default `nightly`, `debug` and `2024`), and the errors of the options
/// that are not valid, one per line.  Invalid options keep the settings of
/// [`PlaygroundCode::new`].  Code without `fn main` is built as a library.
pub fn run_code_request(
    code: String,
    channel: Option<&str>,
    mode: Option<&str>,
    edition: Option<&str>,
) -> (r: (PlaygroundCode, String))
    ensures
        ({
            let ch = option_or(opt_view(channel), "nightly"@);
            let md = option_or(opt_view(mode), "debug"@);
            let ed = option_or(opt_view(edition), "2024"@);
            &&& r.0.channel == (match channel_named(ch) { Some(c) => c, None => Channel::Nightly })
            &&& r.0.mode == (match mode_named(md) { Some(m) => m, None => Mode::Debug })
            &&& r.0.edition == (match edition_named(ed) { Some(e) => e, None => Edition::E2018 })
            &&& r.0.code@ == code@
            &&& r.0.crate_type == (if occurs_in(code@, "fn main"@) { CrateType::Binary } else { CrateType::Library })
            &&& !r.0.tests
            &&& r.1@ == error_line(channel_named(ch), channel_error(ch)) + error_line(mode_named(md), mode_error(md))
                + error_line(edition_named(ed), edition_error(ed))
        }),
{
    let mut errors = String::new();
    let channel = match channel { Some(s) => s, None => "nightly" };
    let mode = match mode { Some(s) => s, None => "debug" };
    let edition = match edition { Some(s) => s, None => "2024" };

    let is_bin = contains_str(code.as_str(), "fn main");
    let mut request = PlaygroundCode::new(code);
    let ghost e0 = errors@;

    match Channel::from_str(channel) {
        Ok(c) => request.channel = c,
        Err(e) => {
            errors.append(e.as_str());
            errors.append("\n");
        },
    }
    let ghost e1 = errors@;
    match Mode::from_str(mode) {
        Ok(m) => request.mode = m,
        Err(e) => {
            errors.append(e.as_str());
            errors.append("\n");
        },
    }
    let ghost e2 = errors@;
    match Edition::from_str(edition) {
        Ok(e) => request.edition = e,
        Err(e) => {
            errors.append(e.as_str());
            errors.append("\n");
        },
    }
    if !is_bin {
        request.crate_type = CrateType::Library;
    }
    proof {
        reveal_strlit("\n");
        assert("\n"@ =~= seq!['\n']);
        let ch = channel@;
        let md = mode@;
        let ed = edition@;
        assert(e1 =~= e0 + error_line(channel_named(ch), channel_error(ch)));
        assert(e2 =~= e1 + error_line(mode_named(md), mode_error(md)));
        assert(errors@ =~= e2 + error_line(edition_named(ed), edition_error(ed)));
        assert(errors@ =~= error_line(channel_named(ch), channel_error(ch)) + error_line(mode_named(md), mode_error(md))
            + error_line(edition_named(ed), edition_error(ed)));
    }
    (request, errors)
}

/// The output to show: with `warn` set to `true`, the compiler's messages
/// followed by a newline and the program's output; otherwise the program's
/// output if the run succeeded, and the compiler's messages if not.
pub fn run_output(warn: Option<&str>, success: bool, stdout: String, stderr: String) -> (r: String)
    ensures
        option_or(opt_view(warn), "false"@) == "true"@ ==> r@ == stderr@ + "\n"@ + stdout@,
        option_or(opt_view(warn), "false"@) != "true"@ ==> r@ == (if success { stdout@ } else { stderr@ }),
{
    let warnings = match warn { Some(s) => s, None => "false" };
    if same_str(warnings, "true") {
        let mut r = stderr;
        r.append("\n");
        r.append(stdout.as_str());
        r
    } else if success {
        stdout
    } else {
        stderr
    }
}

/// How many times `c` occurs in `s`.
pub open spec fn count_char(s: Seq<char>, c: char) -> nat
    decreases s.len(),
{
    if s.len() == 0 {
        0
    } else {
        count_char(s.drop_last(), c) + if s.last() == c { 1nat } else { 0nat }
    }
}

/// The number of lines of `s`, as `str::lines` counts them: a final newline
/// does not start a new line.
pub open spec fn line_count(s: Seq<char>) -> nat {
    if s.len() == 0 {
        0
    } else if s.last() == '\n' {
        count_char(s, '\n')
    } else {
        count_char(s, '\n') + 1
    }
}

/// The number of lines of `s`.
pub fn count_lines(s: &str) -> (r: usize)
    ensures
        r == line_count(s@),
{
    let chars = to_chars(s);
    let mut n: usize = 0;
    let mut i: usize = 0;
    while i < chars.len()
        invariant
            chars@ == s@,
            0 <= i <= chars@.len(),
            n == count_char(chars@.take(i as int), '\n'),
            n <= i,
            (i > 0 && chars@[i - 1] != '\n') ==> n < i,
        decreases chars@.len() - i,
    {
        proof {
            assert(chars@.take(i + 1).drop_last() =~= chars@.take(i as int));
        }
        if chars[i] == '\n' {
            n = n + 1;
        }
        i = i + 1;
    }
    proof {
        assert(chars@.take(chars@.len() as int) =~= chars@);
    }
    if chars.len() == 0 {
        0
    } else if chars[chars.len() - 1] == '\n' {
        n
    } else {
        n + 1
    }
}

/// The reply for the output `result` of a run, after the option `errors`;
/// `None` when the output is too long to show (more than 1993 bytes with
/// the errors, or more than 45 lines) and a playground link is needed.
pub fn run_reply(errors: &str, result: &str) -> (r: Option<String>)
    requires
        byte_len(errors@) <= usize::MAX,
        byte_len(result@) <= usize::MAX,
    ensures
        (r is None) == (byte_len(result@) + byte_len(errors@) > 1993 || line_count(result@) > 45),
        r matches Some(t) ==> t@ == (if result@.len() == 0 { errors@ + "compilation succeeded."@ } else {
            errors@ + "```\n"@ + result@ + "```"@
        }),
        result@.len() > 0 ==> (r matches Some(t) ==> byte_len(t@) <= 2000),
{
    let lines = count_lines(result);
    let rl = result.len();
    let el = errors.len();
    if rl > 1993 || el > 1993 - rl || lines > MAX_OUTPUT_LINES {
        None
    } else if result.is_empty() {
        let mut t = errors.to_owned();
        t.append("compilation succeeded.");
        Some(t)
    } else {
        let mut t = errors.to_owned();
        t.append("```\n");
        t.append(result);
        t.append("```");
        proof {
            reveal_strlit("```\n");
            reveal_strlit("```");
            assert(vstd::utf8::is_ascii_chars("```\n"@));
            assert(vstd::utf8::is_ascii_chars("```"@));
            vstd::utf8::is_ascii_chars_encode_utf8("```\n"@);
            vstd::utf8::is_ascii_chars_encode_utf8("```"@);
            lemma_encode_concat(errors@, "```\n"@);
            lemma_encode_concat(errors@ + "```\n"@, result@);
            lemma_encode_concat(errors@ + "```\n"@ + result@, "```"@);
        }
        Some(t)
    }
}

/// The reply for an output too long to show: the option errors and a link
/// to the code on the playground.
pub fn too_large_reply(errors: &str, link: &str) -> (r: String)
    ensures
        r@ == errors@ + "Output too large. Playground link: "@ + link@,
{
    let mut t = errors.to_owned();
    t.append("Output too large. Playground link: ");
    t.append(link);
    t
}

/// The program that `?eval` runs: the expression printed with `{:?}` in a
/// `main` function; `None` when the code already has `fn main`.
pub fn eval_program(code: &str) -> (r: Option<String>)
    ensures
        occurs_in(code@, "fn main"@) ==> r is None,
        !occurs_in(code@, "fn main"@) ==> (r matches Some(p)
            && p@ == "fn main(){ println!(\"{:?}\",{ "@ + code@ + " \n}); }"@),
{
    if contains_str(code, "fn main") {
        None
    } else {
        let mut p = "fn main(){ println!(\"{:?}\",{ ".to_owned();
        p.append(code);
        p.append(" \n}); }");
        Some(p)
    }
}

/// The help text of the `?play` and `?eval` commands.
pub fn help_message(name: &str) -> (r: String)
    ensures
        r@ == "Compile and run rust code. All code is executed on https://play.rust-lang.org.\n```?"@ + name@
            + " mode={} channel={} edition={} warn={} ``\u{200B}`code``\u{200B}` ```\nOptional arguments:\n    \tmode: debug, release (default: debug)\n    \tchannel: stable, beta, nightly (default: nightly)\n    \tedition: 2015, 2018, 2021, 2024 (default: 2024)\n    \twarn: boolean flag to enable compilation warnings\n    "@,
{
    let mut r = "Compile and run rust code. All code is executed on https://play.rust-lang.org.\n```?".to_owned();
    r.append(name);
    r.append(" mode={} channel={} edition={} warn={} ``\u{200B}`code``\u{200B}` ```\nOptional arguments:\n    \tmode: debug, release (default: debug)\n    \tchannel: stable, beta, nightly (default: nightly)\n    \tedition: 2015, 2018, 2021, 2024 (default: 2024)\n    \twarn: boolean flag to enable compilation warnings\n    ");
    r
}

} // verus!

//! Compiling Rust code on Godbolt: the compiler id that a rustc version
//! names, and the text of the compiler's output.

use vstd::prelude::*;
use crate::strings::to_chars;

verus! {

#[verifier::external_type_specification]
#[verifier::external_body]
pub struct ExIoError(std::io::Error);

/// The outcome of a compilation: the assembly, or the compiler's messages.
pub enum Compilation {
    Success { assembly: String },
    Error { stderr: String },
}

/// One piece of an output stream of the compiler.
pub struct GodboltOutputSegment {
    pub text: String,
}

/// An output stream of the compiler, in pieces.
pub struct GodboltOutput(pub Vec<GodboltOutputSegment>);

/// Why an output could not be turned into text.
#[derive(Clone, Copy, PartialEq, Eq, Debug)]
pub enum OutputError {
    /// Stripping the terminal escapes failed.
    Strip,
    /// What was left is not UTF-8.
    NotUtf8,
}

/// Whether `c` has the Unicode `Alphabetic` property, as `char::is_alphabetic`
/// reports it.
pub uninterp spec fn alphabetic(c: char) -> bool;

/// `char::is_alphabetic`.
#[verifier::external_body]
fn is_alphabetic(c: char) -> (r: bool)
    ensures
        r == alphabetic(c),
        (c as u32) < 128 ==> (r <==> ('a' <= c <= 'z' || 'A' <= c <= 'Z')),
{
    c.is_alphabetic()
}

/// Whether `c` has the Unicode `White_Space` property, which `str::trim`
/// removes: tab to carriage return, space, next line, no-break space, ogham
/// space mark, the spaces from en quad to hair space, line and paragraph
/// separator, narrow no-break space, medium mathematical space and
/// ideographic space.
pub open spec fn white_space(c: char) -> bool {
    let v = c as u32;
    ||| 0x9 <= v <= 0xD
    ||| v == 0x20
    ||| v == 0x85
    ||| v == 0xA0
    ||| v == 0x1680
    ||| 0x2000 <= v <= 0x200A
    ||| v == 0x2028
    ||| v == 0x2029
    ||| v == 0x202F
    ||| v == 0x205F
    ||| v == 0x3000
}

/// `s` without its leading white space.
pub open spec fn trimmed_start(s: Seq<char>) -> Seq<char>
    decreases s.len(),
{
    if s.len() > 0 && white_space(s[0]) {
        trimmed_start(s.drop_first())
    } else {
        s
    }
}

/// `s` without its trailing white space.
pub open spec fn trimmed_end(s: Seq<char>) -> Seq<char>
    decreases s.len(),
{
    if s.len() > 0 && white_space(s.last()) {
        trimmed_end(s.drop_last())
    } else {
        s
    }
}

/// What `str::trim` leaves of `s`: `s` without leading and trailing white
/// space.
pub open spec fn trimmed(s: Seq<char>) -> Seq<char> {
    trimmed_end(trimmed_start(s))
}

/// `str::trim`.
#[verifier::external_body]
fn trim(s: &str) -> (r: &str)
    ensures
        r@ == trimmed(s@),
{
    s.trim()
}

/// What `strip_ansi_escapes::strip` gives for `data`: the bytes without
/// their terminal escape sequences, or `None` when it reports an error.
pub uninterp spec fn ansi_stripped(data: Seq<u8>) -> Option<Seq<u8>>;

/// `strip_ansi_escapes::strip`.
#[verifier::external_body]
fn strip_ansi(data: &[u8]) -> (r: Result<Vec<u8>, std::io::Error>)
    ensures
        (r is Ok) == (ansi_stripped(data@) is Some),
        r matches Ok(v) ==> ansi_stripped(data@) == Some(v@),
{
    strip_ansi_escapes::strip(data)
}

/// `String::from_utf8`: the text that `bytes` encode, if they are UTF-8.
#[verifier::external_body]
fn string_from_utf8(bytes: Vec<u8>) -> (r: Option<String>)
    ensures
        (r is Some) == vstd::utf8::valid_utf8(bytes@),
        r matches Some(s) ==> s@ == vstd::utf8::decode_utf8(bytes@),
{
    String::from_utf8(bytes).ok()
}

/// `s` without any occurrence of `c`.
pub open spec fn without(s: Seq<char>, c: char) -> Seq<char>
    decreases s.len(),
{
    if s.len() == 0 {
        s
    } else if s.last() == c {
        without(s.drop_last(), c)
    } else {
        without(s.drop_last(), c).push(s.last())
    }
}

/// The Godbolt compiler id for the rustc version `v`: `beta` and `nightly`
/// stand for themselves; a version with a dot and no letter (as
/// `has_alphabetic` says) becomes `r` and its digits; anything else is an
/// error.
pub open spec fn godbolt_id(v: Seq<char>, has_alphabetic: bool) -> Result<Seq<char>, Seq<char>> {
    if v == "beta"@ {
        Ok("beta"@)
    } else if v == "nightly"@ {
        Ok("nightly"@)
    } else if v.contains('.') && !has_alphabetic {
        Ok(seq!['r'] + without(v, '.'))
    } else {
        Err("invalid rustc version: `"@ + v + "`"@)
    }
}

/// Whether some character of `s` is alphabetic.
pub open spec fn has_alphabetic(s: Seq<char>) -> bool {
    exists|i: int| 0 <= i < s.len() && #[trigger] alphabetic(s[i])
}

/// The view of a result that holds text.
pub open spec fn text_result<E>(r: Result<String, E>) -> Result<Seq<char>, E> {
    match r {
        Ok(s) => Ok(s@),
        Err(e) => Err(e),
    }
}

/// The view of a result that holds text either way.
pub open spec fn texts_result(r: Result<String, String>) -> Result<Seq<char>, Seq<char>> {
    match r {
        Ok(s) => Ok(s@),
        Err(e) => Err(e@),
    }
}

/// Whether some character of `s` is alphabetic.
fn contains_alphabetic(s: &str) -> (r: bool)
    ensures
        r == has_alphabetic(s@),
{
    let chars = to_chars(s);
    let mut i: usize = 0;
    while i < chars.len()
        invariant
            chars@ == s@,
            0 <= i <= chars@.len(),
            forall|j: int| 0 <= j < i ==> !alphabetic(#[trigger] chars@[j]),
        decreases chars@.len() - i,
    {
        if is_alphabetic(chars[i]) {
            return true;
        }
        i = i + 1;
    }
    false
}

/// The compiler id for the version `rustc_version`, where `has_alphabetic`
/// says whether it holds an alphabetic character.
pub fn godbolt_version(rustc_version: &str, has_alphabetic: bool) -> (r: Result<String, String>)
    ensures
        texts_result(r) == godbolt_id(rustc_version@, has_alphabetic),
{
    if crate::strings::same_str(rustc_version, "beta") {
        return Ok("beta".to_owned());
    }
    if crate::strings::same_str(rustc_version, "nightly") {
        return Ok("nightly".to_owned());
    }
    let chars = to_chars(rustc_version);
    let mut has_dot = false;
    let mut id = "r".to_owned();
    proof {
        reveal_strlit("r");
        assert(id@ =~= seq!['r']);
    }
    let mut i: usize = 0;
    while i < chars.len()
        invariant
            chars@ == rustc_version@,
            0 <= i <= chars@.len(),
            has_dot == chars@.take(i as int).contains('.'),
            id@ == seq!['r'] + without(chars@.take(i as int), '.'),
        decreases chars@.len() - i,
    {
        let c = chars[i];
        proof {
            assert(chars@.take(i + 1).drop_last() =~= chars@.take(i as int));
            assert(chars@.take(i + 1).last() == c);
            if has_dot {
                let k = choose|k: int| 0 <= k < i && chars@.take(i as int)[k] == '.';
                assert(chars@.take(i + 1)[k] == '.');
            }
            if c == '.' {
                assert(chars@.take(i + 1)[i as int] == '.');
            }
            if !has_dot && c != '.' {
                assert forall|k: int| 0 <= k < i + 1 implies #[trigger] chars@.take(i + 1)[k] != '.' by {
                    if k < i {
                        assert(chars@.take(i as int)[k] == chars@.take(i + 1)[k]);
                    }
                }
            }
        }
        if c == '.' {
            has_dot = true;
        } else {
            id.push(c);
        }
        i = i + 1;
    }
    proof {
        assert(chars@.take(chars@.len() as int) =~= chars@);
    }
    if has_dot && !has_alphabetic {
        Ok(id)
    } else {
        let mut e = "invalid rustc version: `".to_owned();
        e.append(rustc_version);
        e.append("`");
        Err(e)
    }
}

/// Converts a rustc version to a Godbolt compiler id.
pub fn rustc_to_godbolt(rustc_version: &str) -> (r: Result<String, String>)
    ensures
        texts_result(r) == godbolt_id(rustc_version@, has_alphabetic(rustc_version@)),
{
    let alpha = contains_alphabetic(rustc_version);
    godbolt_version(rustc_version, alpha)
}

/// The address of the Godbolt endpoint that compiles with `compiler_id`.
pub open spec fn compile_url(compiler_id: Seq<char>) -> Seq<char> {
    "https://godbolt.org/api/compiler/"@ + compiler_id + "/compile"@
}

/// What a compilation with the rustc version `rustc` starts from: the
/// endpoint to post the code to, or, for a version that names no compiler,
/// the failed compilation that is the answer.
pub fn compile_target(rustc: &str) -> (r: Result<String, Compilation>)
    ensures
        match godbolt_id(rustc@, has_alphabetic(rustc@)) {
            Ok(id) => r matches Ok(u) && u@ == compile_url(id),
            Err(e) => r matches Err(Compilation::Error { stderr }) && stderr@ == e,
        },
{
    match rustc_to_godbolt(rustc) {
        Ok(id) => {
            let mut u = "https://godbolt.org/api/compiler/".to_owned();
            u.append(id.as_str());
            u.append("/compile");
            Ok(u)
        },
        Err(e) => Err(Compilation::Error { stderr: e }),
    }
}

/// The flags passed to rustc when none are given: full optimisation.
pub open spec fn default_flags() -> Seq<char> {
    "-Copt-level=3 --edition=2018"@
}

/// The flags to compile with: `flags`, or the default flags when the
/// caller gave none.
pub fn godbolt_flags(flags: &str) -> (r: String)
    ensures
        r@ == (if flags@.len() == 0 { default_flags() } else { flags@ }),
{
    if flags.is_empty() {
        "-Copt-level=3 --edition=2018".to_owned()
    } else {
        flags.to_owned()
    }
}

/// The pieces of an output, each followed by a newline.
pub open spec fn joined_lines(texts: Seq<Seq<char>>) -> Seq<char>
    decreases texts.len(),
{
    if texts.len() == 0 {
        Seq::empty()
    } else {
        joined_lines(texts.drop_last()) + texts.last() + seq!['\n']
    }
}

/// The text of an output with the pieces `texts`: joined, trimmed, and
/// without terminal escapes.
pub open spec fn stripped_text(texts: Seq<Seq<char>>) -> Result<Seq<char>, OutputError> {
    match ansi_stripped(vstd::utf8::encode_utf8(trimmed(joined_lines(texts)))) {
        None => Err(OutputError::Strip),
        Some(b) => if vstd::utf8::valid_utf8(b) {
            Ok(vstd::utf8::decode_utf8(b))
        } else {
            Err(OutputError::NotUtf8)
        },
    }
}

impl GodboltOutput {
    /// The texts of the pieces, in order.
    pub open spec fn texts(&self) -> Seq<Seq<char>> {
        Seq::new(self.0@.len(), |i: int| self.0@[i].text@)
    }

    /// The pieces joined, each followed by a newline.
    pub fn joined_text(&self) -> (r: String)
        ensures
            r@ == joined_lines(self.texts()),
    {
        let mut r = String::new();
        let mut i: usize = 0;
        while i < self.0.len()
            invariant
                0 <= i <= self.0@.len(),
                r@ == joined_lines(self.texts().take(i as int)),
            decreases self.0@.len() - i,
        {
            proof {
                assert(self.texts().take(i + 1).drop_last() =~= self.texts().take(i as int));
                reveal_strlit("\n");
            }
            r.append(self.0[i].text.as_str());
            r.append("\n");
            proof {
                assert("\n"@ =~= seq!['\n']);
            }
            i = i + 1;
        }
        proof {
            assert(self.texts().take(self.0@.len() as int) =~= self.texts());
        }
        r
    }

    /// The whole output as text: the pieces joined, trimmed, and without
    /// terminal escapes.
    pub fn full_with_ansi_codes_stripped(&self) -> (r: Result<String, OutputError>)
        ensures
            text_result(r) == stripped_text(self.texts()),
    {
        let joined = self.joined_text();
        let trimmed_text = trim(joined.as_str());
        match strip_ansi(trimmed_text.as_bytes()) {
            Ok(bytes) => match string_from_utf8(bytes) {
                Some(s) => Ok(s),
                None => Err(OutputError::NotUtf8),
            },
            Err(_) => Err(OutputError::Strip),
        }
    }
}

/// The outcome of a compilation that ended with `code`: the assembly when
/// the code is 0, the compiler's messages otherwise.
pub fn compilation_result(code: u8, stderr: &GodboltOutput, assembly: &GodboltOutput) -> (r: Result<Compilation, OutputError>)
    ensures
        code == 0 ==> match stripped_text(assembly.texts()) {
            Ok(t) => r matches Ok(Compilation::Success { assembly }) && assembly@ == t,
            Err(e) => r == Err::<Compilation, OutputError>(e),
        },
        code != 0 ==> match stripped_text(stderr.texts()) {
            Ok(t) => r matches Ok(Compilation::Error { stderr }) && stderr@ == t,
            Err(e) => r == Err::<Compilation, OutputError>(e),
        },
{
    if code == 0 {
        match assembly.full_with_ansi_codes_stripped() {
            Ok(t) => Ok(Compilation::Success { assembly: t }),
            Err(e) => Err(e),
        }
    } else {
        match stderr.full_with_ansi_codes_stripped() {
            Ok(t) => Ok(Compilation::Error { stderr: t }),
            Err(e) => Err(e),
        }
    }
}

} // verus!

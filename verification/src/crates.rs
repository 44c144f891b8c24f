//! Looking up crates on crates.io and their documentation.

use vstd::prelude::*;
use crate::strings::{to_chars, string_from, sub_chars, occurs_at, same_str};
use crate::parse::u64_to_string;

verus! {

/// The reply when no crate matches.
pub const NO_CRATES: &'static str = "No crates found.";

/// A crate as crates.io describes it.
pub struct Crate {
    pub id: String,
    pub name: String,
    pub newest_version: String,
    pub max_stable_version: Option<String>,
    pub updated: String,
    pub downloads: u64,
    pub description: String,
    pub documentation: Option<String>,
}

/// The crates of a search, best match first.
pub struct Crates {
    pub crates: Vec<Crate>,
}

impl Crates {
    /// The best match, if any.
    pub fn first(self) -> (r: Option<Crate>)
        ensures
            self.crates@.len() == 0 ==> r is None,
            self.crates@.len() > 0 ==> r == Some(self.crates@[0]),
    {
        let mut crates = self.crates;
        if crates.len() == 0 {
            None
        } else {
            Some(crates.remove(0))
        }
    }
}

/// The documentation of the crates that ship with the compiler.
pub open spec fn rustc_doc_url(name: Seq<char>) -> Option<Seq<char>> {
    if name == "std"@ {
        Some("https://doc.rust-lang.org/stable/std/"@)
    } else if name == "core"@ {
        Some("https://doc.rust-lang.org/stable/core/"@)
    } else if name == "alloc"@ {
        Some("https://doc.rust-lang.org/stable/alloc/"@)
    } else if name == "proc_macro"@ {
        Some("https://doc.rust-lang.org/stable/proc_macro/"@)
    } else if name == "beta"@ {
        Some("https://doc.rust-lang.org/beta/std/"@)
    } else if name == "nightly"@ {
        Some("https://doc.rust-lang.org/nightly/std/"@)
    } else if name == "rustc"@ {
        Some("https://doc.rust-lang.org/nightly/nightly-rustc/"@)
    } else {
        None
    }
}

/// The view of an optional text.
pub open spec fn opt_str_view(o: Option<&str>) -> Option<Seq<char>> {
    match o {
        Some(s) => Some(s@),
        None => None,
    }
}

/// The view of an optional string.
pub open spec fn opt_string_view(o: Option<String>) -> Option<Seq<char>> {
    match o {
        Some(s) => Some(s@),
        None => None,
    }
}

/// The documentation address of a crate that ships with the compiler.
pub fn rustc_crate(crate_name: &str) -> (r: Option<&'static str>)
    ensures
        opt_str_view(r) == rustc_doc_url(crate_name@),
{
    if same_str(crate_name, "std") {
        Some("https://doc.rust-lang.org/stable/std/")
    } else if same_str(crate_name, "core") {
        Some("https://doc.rust-lang.org/stable/core/")
    } else if same_str(crate_name, "alloc") {
        Some("https://doc.rust-lang.org/stable/alloc/")
    } else if same_str(crate_name, "proc_macro") {
        Some("https://doc.rust-lang.org/stable/proc_macro/")
    } else if same_str(crate_name, "beta") {
        Some("https://doc.rust-lang.org/beta/std/")
    } else if same_str(crate_name, "nightly") {
        Some("https://doc.rust-lang.org/nightly/std/")
    } else if same_str(crate_name, "rustc") {
        Some("https://doc.rust-lang.org/nightly/nightly-rustc/")
    } else {
        None
    }
}

/// `::` occurs in `s` at `k`.
pub open spec fn sep_at(s: Seq<char>, k: int) -> bool {
    occurs_at(s, seq![':', ':'], k)
}

/// `k` is the first place where `::` occurs in `s`.
pub open spec fn first_sep(s: Seq<char>, k: int) -> bool {
    &&& sep_at(s, k)
    &&& forall|j: int| 0 <= j < k ==> !#[trigger] sep_at(s, j)
}

/// A documentation query split at its first `::`: the crate, and the item
/// path after it, if there is one.
pub open spec fn doc_query_parts(q: Seq<char>) -> (Seq<char>, Option<Seq<char>>) {
    if exists|k: int| #[trigger] first_sep(q, k) {
        let k = choose|k: int| #[trigger] first_sep(q, k);
        (q.subrange(0, k), Some(q.subrange(k + 2, q.len() as int)))
    } else {
        (q, None)
    }
}

/// The first place where `::` occurs in `s`, if any.
fn find_path_separator(s: &[char]) -> (r: Option<usize>)
    ensures
        r matches Some(k) ==> first_sep(s@, k as int) && k + 2 <= s@.len(),
        r is None ==> forall|j: int| !#[trigger] sep_at(s@, j),
{
    let mut j: usize = 0;
    while s.len() - j >= 2
        invariant
            0 <= j <= s@.len(),
            forall|k: int| 0 <= k < j ==> !#[trigger] sep_at(s@, k),
        decreases s@.len() - j,
    {
        if s[j] == ':' && s[j + 1] == ':' {
            proof {
                assert(s@.subrange(j as int, j + 2) =~= seq![':', ':']);
            }
            return Some(j);
        }
        proof {
            if sep_at(s@, j as int) {
                assert(s@.subrange(j as int, j + 2)[0] == s@[j as int]);
                assert(s@.subrange(j as int, j + 2)[1] == s@[j + 1]);
            }
        }
        j = j + 1;
    }
    None
}

/// `str::splitn(2, "::")`: the crate name of a documentation query and the
/// item path after it.
pub fn split_doc_query(query: &str) -> (r: (String, Option<String>))
    ensures
        r.0@ == doc_query_parts(query@).0,
        opt_string_view(r.1) == doc_query_parts(query@).1,
{
    let chars = to_chars(query);
    match find_path_separator(chars.as_slice()) {
        Some(k) => {
            proof {
                let q = query@;
                assert(first_sep(q, k as int));
                let kk = choose|kk: int| #[trigger] first_sep(q, kk);
                if kk < k {
                    assert(sep_at(q, kk));
                } else if k < kk {
                    assert(sep_at(q, k as int));
                }
                assert(kk == k);
            }
            let n = chars.len();
            assert(k + 2 <= n);
            let head = sub_chars(chars.as_slice(), 0, k);
            let tail = sub_chars(chars.as_slice(), k + 2, n);
            (string_from(head.as_slice()), Some(string_from(tail.as_slice())))
        },
        None => {
            proof {
                if exists|k: int| #[trigger] first_sep(query@, k) {
                    let k = choose|k: int| #[trigger] first_sep(query@, k);
                    assert(sep_at(query@, k));
                }
            }
            (string_from(chars.as_slice()), None)
        },
    }
}

/// The documentation address of a crate found on crates.io: its own, or
/// its page on docs.rs.
pub open spec fn crate_docs(name: Seq<char>, documentation: Option<Seq<char>>) -> Seq<char> {
    match documentation {
        Some(d) => d,
        None => "https://docs.rs/"@ + name,
    }
}

/// The reply to a documentation query `q`, given the crate that a search
/// on crates.io for `q` found, as its name and documentation address (only
/// consulted when the crate is not one of the compiler's): the address,
/// with a search for the item path when the query has one, or a note that
/// no crate was found.
pub open spec fn docs_reply_text(q: Seq<char>, found: Option<(Seq<char>, Option<Seq<char>>)>) -> Seq<char> {
    let (name, item) = doc_query_parts(q);
    let url = match rustc_doc_url(name) {
        Some(u) => Some(u),
        None => match found {
            Some(k) => Some(crate_docs(k.0, k.1)),
            None => None,
        },
    };
    match url {
        None => "No crates found."@,
        Some(u) => match item {
            Some(p) => u + "?search="@ + p,
            None => u,
        },
    }
}

/// Whether the reply to the documentation query `query` needs a search on
/// crates.io: when its crate is not one of the compiler's.
pub fn docs_need_search(query: &str) -> (r: bool)
    ensures
        r == (rustc_doc_url(doc_query_parts(query@).0) is None),
{
    let (name, _) = split_doc_query(query);
    rustc_crate(name.as_str()).is_none()
}

/// The view of the crate that a documentation search found.
pub open spec fn found_view(found: Option<&Crate>) -> Option<(Seq<char>, Option<Seq<char>>)> {
    match found {
        Some(k) => Some((k.name@, opt_string_view(k.documentation))),
        None => None,
    }
}

/// The reply to the documentation query `query`; `found` is what a search
/// on crates.io for the query gave.
pub fn docs_reply(query: &str, found: Option<&Crate>) -> (r: String)
    ensures
        r@ == docs_reply_text(query@, found_view(found)),
{
    let (name, item) = split_doc_query(query);
    let url: Option<String> = match rustc_crate(name.as_str()) {
        Some(u) => Some(u.to_owned()),
        None => match found {
            Some(k) => match &k.documentation {
                Some(d) => Some(d.clone()),
                None => {
                    let mut u = "https://docs.rs/".to_owned();
                    u.append(k.name.as_str());
                    Some(u)
                },
            },
            None => None,
        },
    };
    match url {
        None => NO_CRATES.to_owned(),
        Some(u) => match item {
            Some(p) => {
                let mut u = u;
                u.append("?search=");
                u.append(p.as_str());
                u
            },
            None => u,
        },
    }
}

/// What a search result shows of a crate.
pub struct CrateEmbed {
    pub title: String,
    pub url: String,
    pub description: String,
    pub version: String,
    pub downloads: String,
    pub timestamp: String,
}

/// The version a search shows: the newest stable one, or else the newest.
pub open spec fn shown_version(k: Crate) -> Seq<char> {
    match k.max_stable_version {
        Some(v) => v@,
        None => k.newest_version@,
    }
}

/// What a search result shows of the crate `krate`: its name as the title,
/// its page on crates.io, its description, the version, the number of
/// downloads and the time of its last update.
pub fn crate_embed(krate: &Crate) -> (r: CrateEmbed)
    ensures
        r.title@ == krate.name@,
        r.url@ == "https://crates.io/crates/"@ + krate.id@,
        r.description@ == krate.description@,
        r.version@ == shown_version(*krate),
        r.downloads@ == crate::parse::decimal_digits(krate.downloads as nat),
        r.timestamp@ == krate.updated@,
{
    let mut url = "https://crates.io/crates/".to_owned();
    url.append(krate.id.as_str());
    let version = match &krate.max_stable_version {
        Some(v) => v.clone(),
        None => krate.newest_version.clone(),
    };
    CrateEmbed {
        title: krate.name.clone(),
        url,
        description: krate.description.clone(),
        version,
        downloads: u64_to_string(krate.downloads),
        timestamp: krate.updated.clone(),
    }
}

} // verus!

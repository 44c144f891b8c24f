use discord_mods_bot::crates::{
    crate_embed, docs_need_search, docs_reply, rustc_crate, split_doc_query, Crate, Crates, NO_CRATES,
};

fn krate(name: &str, documentation: Option<&str>) -> Crate {
    Crate {
        id: name.to_string(),
        name: name.to_string(),
        newest_version: "1.0.0-beta".to_string(),
        max_stable_version: Some("0.9.1".to_string()),
        updated: "2021-01-01T00:00:00Z".to_string(),
        downloads: 12345,
        description: "A crate".to_string(),
        documentation: documentation.map(|d| d.to_string()),
    }
}

#[test]
fn compiler_crates() {
    assert_eq!(rustc_crate("std"), Some("https://doc.rust-lang.org/stable/std/"));
    assert_eq!(rustc_crate("core"), Some("https://doc.rust-lang.org/stable/core/"));
    assert_eq!(rustc_crate("alloc"), Some("https://doc.rust-lang.org/stable/alloc/"));
    assert_eq!(rustc_crate("proc_macro"), Some("https://doc.rust-lang.org/stable/proc_macro/"));
    assert_eq!(rustc_crate("beta"), Some("https://doc.rust-lang.org/beta/std/"));
    assert_eq!(rustc_crate("nightly"), Some("https://doc.rust-lang.org/nightly/std/"));
    assert_eq!(rustc_crate("rustc"), Some("https://doc.rust-lang.org/nightly/nightly-rustc/"));
    assert_eq!(rustc_crate("serde"), None);
}

#[test]
fn doc_query_split() {
    assert_eq!(split_doc_query("std"), ("std".to_string(), None));
    assert_eq!(split_doc_query("std::vec::Vec"), ("std".to_string(), Some("vec::Vec".to_string())));
    assert_eq!(split_doc_query("::x"), (String::new(), Some("x".to_string())));
    assert_eq!(split_doc_query("a:b"), ("a:b".to_string(), None));
}

#[test]
fn doc_replies() {
    assert_eq!(docs_reply("std", None), "https://doc.rust-lang.org/stable/std/");
    assert_eq!(
        docs_reply("std::collections::HashMap", None),
        "https://doc.rust-lang.org/stable/std/?search=collections::HashMap"
    );
    let serde = krate("serde", None);
    assert_eq!(docs_reply("serde", Some(&serde)), "https://docs.rs/serde");
    assert_eq!(docs_reply("serde::Serialize", Some(&serde)), "https://docs.rs/serde?search=Serialize");
    let tokio = krate("tokio", Some("https://tokio.rs/docs"));
    assert_eq!(docs_reply("tokio", Some(&tokio)), "https://tokio.rs/docs");
    assert_eq!(docs_reply("nothing", None), NO_CRATES);
    assert_eq!(NO_CRATES, "No crates found.");
}

#[test]
fn search_needed_for_other_crates() {
    assert!(!docs_need_search("std::vec"));
    assert!(!docs_need_search("rustc"));
    assert!(docs_need_search("serde"));
    assert!(docs_need_search("stdx::y"));
}

#[test]
fn search_result_embed() {
    let k = krate("rand", None);
    let e = crate_embed(&k);
    assert_eq!(e.title, "rand");
    assert_eq!(e.url, "https://crates.io/crates/rand");
    assert_eq!(e.description, "A crate");
    assert_eq!(e.version, "0.9.1");
    assert_eq!(e.downloads, "12345");
    assert_eq!(e.timestamp, "2021-01-01T00:00:00Z");
    let mut unstable = krate("x", None);
    unstable.max_stable_version = None;
    assert_eq!(crate_embed(&unstable).version, "1.0.0-beta");
}

#[test]
fn best_match_is_first() {
    let list = Crates { crates: vec![krate("a", None), krate("b", None)] };
    assert_eq!(list.first().map(|k| k.name), Some("a".to_string()));
    let empty = Crates { crates: vec![] };
    assert!(empty.first().is_none());
}

use discord_mods_bot::playground::{
    count_lines, eval_program, help_message, run_code_request, run_output, run_reply, too_large_reply, Channel,
    CrateType, Edition, Mode, PlaygroundCode, MAX_OUTPUT_LINES,
};

#[test]
fn channel_names() {
    assert_eq!(Channel::from_str("stable"), Ok(Channel::Stable));
    assert_eq!(Channel::from_str("beta"), Ok(Channel::Beta));
    assert_eq!(Channel::from_str("nightly"), Ok(Channel::Nightly));
    assert_eq!(Channel::from_str("Stable"), Err("invalid release channel `Stable`".to_string()));
}

#[test]
fn edition_names() {
    assert_eq!(Edition::from_str("2015"), Ok(Edition::E2015));
    assert_eq!(Edition::from_str("2018"), Ok(Edition::E2018));
    assert_eq!(Edition::from_str("2021"), Ok(Edition::E2021));
    assert_eq!(Edition::from_str("2024"), Ok(Edition::E2024));
    assert_eq!(Edition::from_str("2019"), Err("invalid edition `2019`".to_string()));
}

#[test]
fn mode_names() {
    assert_eq!(Mode::from_str("debug"), Ok(Mode::Debug));
    assert_eq!(Mode::from_str("release"), Ok(Mode::Release));
    assert_eq!(Mode::from_str("fast"), Err("invalid compilation mode `fast`".to_string()));
}

#[test]
fn new_request_defaults() {
    let r = PlaygroundCode::new("fn main() {}".to_string());
    assert_eq!(r.channel, Channel::Nightly);
    assert_eq!(r.edition, Edition::E2018);
    assert_eq!(r.mode, Mode::Debug);
    assert_eq!(r.crate_type, CrateType::Binary);
    assert_eq!(r.code, "fn main() {}");
    assert!(!r.tests);
}

#[test]
fn gist_link() {
    let mut r = PlaygroundCode::new(String::new());
    r.channel = Channel::Stable;
    r.mode = Mode::Release;
    r.edition = Edition::E2021;
    assert_eq!(
        r.url_from_gist("abc123"),
        "https://play.rust-lang.org/?version=stable&mode=release&edition=2021&gist=abc123"
    );
    let d = PlaygroundCode::new(String::new());
    assert_eq!(
        d.url_from_gist("x"),
        "https://play.rust-lang.org/?version=nightly&mode=debug&edition=2018&gist=x"
    );
}

#[test]
fn request_from_defaults() {
    let (req, errors) = run_code_request("fn main() {}".to_string(), None, None, None);
    assert_eq!(req.channel, Channel::Nightly);
    assert_eq!(req.mode, Mode::Debug);
    assert_eq!(req.edition, Edition::E2024);
    assert_eq!(req.crate_type, CrateType::Binary);
    assert_eq!(errors, "");
}

#[test]
fn request_with_options_and_errors() {
    let (req, errors) = run_code_request("pub fn f() {}".to_string(), Some("beta"), Some("slow"), Some("2015"));
    assert_eq!(req.channel, Channel::Beta);
    assert_eq!(req.mode, Mode::Debug);
    assert_eq!(req.edition, Edition::E2015);
    assert_eq!(req.crate_type, CrateType::Library);
    assert_eq!(errors, "invalid compilation mode `slow`\n");
    let (req, errors) = run_code_request("x".to_string(), Some("x"), Some("y"), Some("z"));
    assert_eq!(req.channel, Channel::Nightly);
    assert_eq!(req.edition, Edition::E2018);
    assert_eq!(
        errors,
        "invalid release channel `x`\ninvalid compilation mode `y`\ninvalid edition `z`\n"
    );
}

#[test]
fn output_choice() {
    assert_eq!(run_output(None, true, "out".to_string(), "err".to_string()), "out");
    assert_eq!(run_output(None, false, "out".to_string(), "err".to_string()), "err");
    assert_eq!(run_output(Some("true"), true, "out".to_string(), "err".to_string()), "err\nout");
    assert_eq!(run_output(Some("yes"), false, "out".to_string(), "err".to_string()), "err");
}

#[test]
fn line_counting() {
    assert_eq!(count_lines(""), 0);
    assert_eq!(count_lines("a"), 1);
    assert_eq!(count_lines("a\n"), 1);
    assert_eq!(count_lines("a\nb"), 2);
    assert_eq!(count_lines("\n\n"), 2);
}

#[test]
fn replies_to_a_run() {
    assert_eq!(run_reply("", ""), Some("compilation succeeded.".to_string()));
    assert_eq!(run_reply("e\n", ""), Some("e\ncompilation succeeded.".to_string()));
    assert_eq!(run_reply("", "Hello\n"), Some("```\nHello\n```".to_string()));
    let long = "x".repeat(1994);
    assert_eq!(run_reply("", &long), None);
    let fits = "x".repeat(1993);
    assert_eq!(run_reply("", &fits).map(|t| t.len()), Some(2000));
    assert_eq!(run_reply("e", &fits), None);
    assert_eq!(MAX_OUTPUT_LINES, 45);
    let many = "l\n".repeat(46);
    assert_eq!(run_reply("", &many), None);
    let enough = "l\n".repeat(45);
    assert!(run_reply("", &enough).is_some());
}

#[test]
fn too_large_output_links_to_the_playground() {
    assert_eq!(
        too_large_reply("e\n", "https://play.rust-lang.org/?gist=1"),
        "e\nOutput too large. Playground link: https://play.rust-lang.org/?gist=1"
    );
}

#[test]
fn eval_wraps_an_expression() {
    assert_eq!(
        eval_program("1 + 1"),
        Some("fn main(){ println!(\"{:?}\",{ 1 + 1 \n}); }".to_string())
    );
    assert_eq!(eval_program("fn main() {}"), None);
}

#[test]
fn play_help_text() {
    let h = help_message("play");
    assert!(h.starts_with("Compile and run rust code. All code is executed on https://play.rust-lang.org.\n```?play mode={} channel={} edition={} warn={} ``\u{200B}`code``\u{200B}` ```\n"));
    assert!(h.contains("\tedition: 2015, 2018, 2021, 2024 (default: 2024)\n"));
}

#[test]
fn link_settings_read_back() {
    for (c, name) in [(Channel::Stable, "stable"), (Channel::Beta, "beta"), (Channel::Nightly, "nightly")] {
        let mut r = PlaygroundCode::new(String::new());
        r.channel = c;
        assert!(r.url_from_gist("g").contains(&format!("version={}&", name)));
        assert_eq!(Channel::from_str(name), Ok(c));
    }
    for (m, name) in [(Mode::Debug, "debug"), (Mode::Release, "release")] {
        let mut r = PlaygroundCode::new(String::new());
        r.mode = m;
        assert!(r.url_from_gist("g").contains(&format!("mode={}&", name)));
        assert_eq!(Mode::from_str(name), Ok(m));
    }
    for (e, name) in [(Edition::E2015, "2015"), (Edition::E2018, "2018"), (Edition::E2021, "2021"), (Edition::E2024, "2024")] {
        let mut r = PlaygroundCode::new(String::new());
        r.edition = e;
        assert!(r.url_from_gist("g").contains(&format!("edition={}&", name)));
        assert_eq!(Edition::from_str(name), Ok(e));
    }
}

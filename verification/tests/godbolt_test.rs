use discord_mods_bot::godbolt::{
    godbolt_flags,
    compilation_result, compile_target, godbolt_version, rustc_to_godbolt, Compilation, GodboltOutput,
    GodboltOutputSegment, OutputError,
};

fn output(texts: &[&str]) -> GodboltOutput {
    GodboltOutput(texts.iter().map(|t| GodboltOutputSegment { text: t.to_string() }).collect())
}

#[test]
fn compiler_ids() {
    assert_eq!(rustc_to_godbolt("beta"), Ok("beta".to_string()));
    assert_eq!(rustc_to_godbolt("nightly"), Ok("nightly".to_string()));
    assert_eq!(rustc_to_godbolt("1.45.2"), Ok("r1452".to_string()));
    assert_eq!(rustc_to_godbolt("1.70.0"), Ok("r1700".to_string()));
    assert_eq!(rustc_to_godbolt("stable"), Err("invalid rustc version: `stable`".to_string()));
    assert_eq!(rustc_to_godbolt("1.45.2-beta"), Err("invalid rustc version: `1.45.2-beta`".to_string()));
    assert_eq!(rustc_to_godbolt("145"), Err("invalid rustc version: `145`".to_string()));
    assert_eq!(rustc_to_godbolt("1.é"), Err("invalid rustc version: `1.é`".to_string()));
    assert_eq!(rustc_to_godbolt("1.4-2"), Ok("r14-2".to_string()));
}

#[test]
fn compiler_id_from_a_letter_test() {
    assert_eq!(godbolt_version("1.2", false), Ok("r12".to_string()));
    assert_eq!(godbolt_version("1.2", true), Err("invalid rustc version: `1.2`".to_string()));
    assert_eq!(godbolt_version("beta", true), Ok("beta".to_string()));
}

#[test]
fn compile_endpoint() {
    match compile_target("1.45.2") {
        Ok(url) => assert_eq!(url, "https://godbolt.org/api/compiler/r1452/compile"),
        Err(_) => panic!("expected an endpoint"),
    }
    match compile_target("nightly") {
        Ok(url) => assert_eq!(url, "https://godbolt.org/api/compiler/nightly/compile"),
        Err(_) => panic!("expected an endpoint"),
    }
    match compile_target("latest") {
        Err(Compilation::Error { stderr }) => assert_eq!(stderr, "invalid rustc version: `latest`"),
        _ => panic!("expected a failed compilation"),
    }
}

#[test]
fn joined_output_text() {
    let o = output(&["a", "b"]);
    assert_eq!(o.joined_text(), "a\nb\n");
    assert_eq!(output(&[]).joined_text(), "");
}

#[test]
fn output_without_escapes() {
    let o = output(&["\u{1b}[32mfoo\u{1b}[m bar", "  baz  "]);
    assert_eq!(o.full_with_ansi_codes_stripped(), Ok("foo bar\n  baz".to_string()));
    let plain = output(&["  mov eax, 1", "ret"]);
    assert_eq!(plain.full_with_ansi_codes_stripped(), Ok("mov eax, 1\nret".to_string()));
    assert_eq!(output(&[]).full_with_ansi_codes_stripped(), Ok(String::new()));
}

#[test]
fn compilation_outcome() {
    let err = output(&["error: oops"]);
    let assembly = output(&["example::f:", "  ret"]);
    match compilation_result(0, &err, &assembly) {
        Ok(Compilation::Success { assembly }) => assert_eq!(assembly, "example::f:\n  ret"),
        _ => panic!("expected assembly"),
    }
    match compilation_result(1, &err, &assembly) {
        Ok(Compilation::Error { stderr }) => assert_eq!(stderr, "error: oops"),
        _ => panic!("expected compiler messages"),
    }
    assert_ne!(OutputError::Strip, OutputError::NotUtf8);
}

#[test]
fn default_flags_optimise() {
    assert_eq!(godbolt_flags(""), "-Copt-level=3 --edition=2018");
    assert_eq!(godbolt_flags("-O"), "-O");
}

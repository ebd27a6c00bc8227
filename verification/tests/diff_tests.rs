use tlarc::diff::{
    base_name_from_stem, number_before, parse_tlc_output, report_ok, spec_base_name,
    sibling_config_name, sort_names, tally, tlarc_error, tlarc_not_run, tlarc_outcome_of_run, tlc_not_run, TlarcRun, tlc_outcome_of_run, TlcVerdict, ToolError,
};

/// Captured from a real successful TLC run (corpus/trivial.tla).
const SUCCESS_OUTPUT: &str = "\
TLC2 Version 2.19 of 08 August 2024 (rev: 5a47802)
Running breadth-first search Model-Checking with fp 93 and seed 2436805577566022128
Parsing file corpus/trivial.tla
Semantic processing of module trivial
Starting... (2026-08-01 15:16:44)
Model checking completed. No error has been found.
3 states generated, 2 distinct states found, 0 states left on queue.
The depth of the complete state graph search is 2.
Finished in 00s at (2026-08-01 15:16:44)";

/// Captured from a real TLC run on a spec it cannot handle.
const REJECT_OUTPUT: &str = "\
TLC2 Version 2.19 of 08 August 2024 (rev: 5a47802)
Parsing file /tmp/ok.tla
Semantic processing of module ok
Starting... (2026-08-01 15:17:54)
Error: TLC cannot handle this conjunct of the spec:
line 4, col 9 to line 4, col 14 of module ok
Finished in 00s at (2026-08-01 15:17:54)";

#[test]
fn parses_successful_run() {
    let o = parse_tlc_output(SUCCESS_OUTPUT, 0);
    assert!(o.ran);
    assert_eq!(o.exit_code, 0);
    assert_eq!(o.verdict, TlcVerdict::NoError);
    assert_eq!(o.generated_states, Some(3));
    assert_eq!(o.distinct_states, Some(2));
    assert_eq!(o.error, None);
}

#[test]
fn parses_rejected_run() {
    let o = parse_tlc_output(REJECT_OUTPUT, 151);
    assert_eq!(o.verdict, TlcVerdict::Error);
    assert_eq!(o.generated_states, None);
    let err = o.error.expect("error line captured");
    assert!(err.contains("cannot handle this conjunct"), "{err}");
}

#[test]
fn unknown_output_is_unknown() {
    let o = parse_tlc_output("jibberish\nno markers here", 3);
    assert_eq!(o.verdict, TlcVerdict::Unknown);
    assert_eq!(o.generated_states, None);
    assert_eq!(o.error, None);
}

#[test]
fn state_counts_survive_other_numbers() {
    // Numbers appear in headers too; only the queue line counts.
    let o = parse_tlc_output(
        "with fp 93 and seed 2436805577566022128\n7 states generated, 5 distinct states found, 2 states left on queue.",
        0,
    );
    assert_eq!(o.generated_states, Some(7));
    assert_eq!(o.distinct_states, Some(5));
}

#[test]
fn rejected_run_error_line_is_the_whole_trimmed_line() {
    let o = parse_tlc_output(REJECT_OUTPUT, 151);
    assert_eq!(o.exit_code, 151);
    assert!(o.ran);
    assert_eq!(o.distinct_states, None);
    assert_eq!(
        o.error.as_deref(),
        Some("Error: TLC cannot handle this conjunct of the spec:")
    );
}

#[test]
fn error_line_is_the_first_one_and_trimmed() {
    let text = "a\r\n  \tError: first one \r\nError: second\n";
    let o = parse_tlc_output(text, 1);
    assert_eq!(o.verdict, TlcVerdict::Error);
    assert_eq!(o.error.as_deref(), Some("Error: first one"));
    let expected = text
        .lines()
        .find(|l| l.contains("Error:"))
        .map(|l| l.trim().to_string());
    assert_eq!(o.error, expected);
}

#[test]
fn unicode_white_space_is_trimmed_like_str_trim() {
    let text = "\u{3000}\u{a0}Error: x\u{2003}\u{85}";
    let o = parse_tlc_output(text, 0);
    assert_eq!(o.error.as_deref(), Some(text.trim()));
    assert_eq!(o.error.as_deref(), Some("Error: x"));
}

#[test]
fn no_error_marker_wins_over_error_lines() {
    let text = "Error: noise\nModel checking completed. No error has been found.\n";
    let o = parse_tlc_output(text, 0);
    assert_eq!(o.verdict, TlcVerdict::NoError);
    assert_eq!(o.error.as_deref(), Some("Error: noise"));
}

#[test]
fn error_marker_in_mid_line_takes_the_whole_line() {
    let o = parse_tlc_output("x\nThe Error: is here\ny", 0);
    assert_eq!(o.error.as_deref(), Some("The Error: is here"));
}

#[test]
fn number_before_reads_the_digits_just_before() {
    assert_eq!(number_before("12 ab", " ab"), Some(12));
    assert_eq!(number_before("x0012 ab", " ab"), Some(12));
    assert_eq!(number_before("1 x 12 ab 99 ab", " ab"), Some(12));
    assert_eq!(number_before("12x ab", " ab"), None);
    assert_eq!(number_before(" ab", " ab"), None);
    assert_eq!(number_before("12 ab", " cd"), None);
    assert_eq!(number_before("é7 ab", " ab"), Some(7));
    // The empty needle is found at the start, before any digit.
    assert_eq!(number_before("12", ""), None);
}

#[test]
fn number_before_refuses_what_does_not_fit_in_u64() {
    assert_eq!(
        number_before("18446744073709551615 states", " states"),
        Some(u64::MAX)
    );
    assert_eq!(number_before("18446744073709551616 states", " states"), None);
    assert_eq!(number_before("99999999999999999999999 states", " states"), None);
    assert_eq!(
        number_before("000000000000000000000000042 states", " states"),
        Some(42)
    );
}

#[test]
fn outcome_of_run_reads_stdout_then_stderr() {
    let o = tlc_outcome_of_run(
        "4 states generated,",
        " 3 distinct states found,\nError: boom",
        None,
    );
    assert_eq!(o.exit_code, -1);
    assert_eq!(o.generated_states, Some(4));
    assert_eq!(o.distinct_states, Some(3));
    assert_eq!(o.verdict, TlcVerdict::Error);
    assert_eq!(o.error.as_deref(), Some("Error: boom"));
    let o = tlc_outcome_of_run(SUCCESS_OUTPUT, "", Some(0));
    assert_eq!(o, parse_tlc_output(SUCCESS_OUTPUT, 0));
}

#[test]
fn not_run_outcome_is_empty() {
    let o = tlc_not_run();
    assert!(!o.ran);
    assert_eq!(o.exit_code, -1);
    assert_eq!(o.verdict, TlcVerdict::Unknown);
    assert_eq!(o.generated_states, None);
    assert_eq!(o.distinct_states, None);
    assert_eq!(o.error, None);
}

fn tlarc_run(ran: bool, exit_code: i32, status: Option<&str>) -> TlarcRun {
    TlarcRun { ran, exit_code, status: status.map(String::from), error: None }
}

#[test]
fn report_is_ok_only_when_both_tools_accept() {
    let good = parse_tlc_output(SUCCESS_OUTPUT, 0);
    assert!(report_ok(&good, &tlarc_run(true, 0, Some("ok"))));
    assert!(!report_ok(&good, &tlarc_run(true, 0, Some("parse_error"))));
    assert!(!report_ok(&good, &tlarc_run(true, 0, None)));
    assert!(!report_ok(&good, &tlarc_run(false, 0, Some("ok"))));
    assert!(!report_ok(&good, &tlarc_run(true, 1, Some("ok"))));
    assert!(!report_ok(&good, &tlarc_not_run()));
    let bad_exit = parse_tlc_output(SUCCESS_OUTPUT, 1);
    assert!(!report_ok(&bad_exit, &tlarc_run(true, 0, Some("ok"))));
    let rejected = parse_tlc_output(REJECT_OUTPUT, 0);
    assert!(!report_ok(&rejected, &tlarc_run(true, 0, Some("ok"))));
    assert!(!report_ok(&tlc_not_run(), &tlarc_run(true, 0, Some("ok"))));
}

const OK_JSON: &str =
    "{\"status\": \"ok\", \"module\": \"m\", \"counts\": {\"operators\": 1}, \"error\": null}";

const FAILED_JSON: &str = "{\"status\": \"parse_error\", \"error\": \"SANY reported errors\"}";

#[test]
fn tlarc_run_reads_the_json_verdict() {
    let r = tlarc_outcome_of_run(OK_JSON, "", true, Some(0));
    assert!(r.ran);
    assert_eq!(r.exit_code, 0);
    assert_eq!(r.status.as_deref(), Some("ok"));
    assert_eq!(r.error, None);

    let r = tlarc_outcome_of_run(FAILED_JSON, "", false, Some(1));
    assert_eq!(r.status.as_deref(), Some("parse_error"));
    assert_eq!(r.error.as_deref(), Some("SANY reported errors"));

    // Stderr, trimmed, wins over the verdict's error field.
    let r = tlarc_outcome_of_run(FAILED_JSON, "  diagnostics\n", false, None);
    assert_eq!(r.exit_code, -1);
    assert_eq!(r.error.as_deref(), Some("diagnostics"));
}

#[test]
fn tlarc_run_without_json_has_no_status() {
    let r = tlarc_outcome_of_run("not json", "", false, Some(2));
    assert_eq!(r.status, None);
    assert_eq!(r.error, None);
    // A null or non-string field is no status; so is a non-object verdict.
    let r = tlarc_outcome_of_run(r#"{"status":null,"error":3}"#, "", false, Some(2));
    assert_eq!(r.status, None);
    assert_eq!(r.error, None);
    let r = tlarc_outcome_of_run(r#"["status"]"#, "", true, Some(0));
    assert_eq!(r.status, None);
    let r = tlarc_outcome_of_run("  {\"status\" : \"ok\"}\n", "", true, Some(0));
    assert_eq!(r.status.as_deref(), Some("ok"));
}

#[test]
fn tlarc_error_prefers_stderr() {
    assert_eq!(tlarc_error(true, "boom", Some(String::from("x"))), None);
    assert_eq!(
        tlarc_error(false, "  boom \n", Some(String::from("x"))),
        Some(String::from("boom"))
    );
    assert_eq!(
        tlarc_error(false, " \n\t", Some(String::from("x"))),
        Some(String::from("x"))
    );
    assert_eq!(tlarc_error(false, "", None), None);
}

#[test]
fn spec_base_name_is_the_file_stem() {
    assert_eq!(spec_base_name("corpus/foo.tla"), "foo");
    assert_eq!(spec_base_name("trivial.tla"), "trivial");
    assert_eq!(spec_base_name("a/b.c.tla"), "b.c");
    assert_eq!(spec_base_name("dir/.hidden"), ".hidden");
    assert_eq!(spec_base_name("dir/noext"), "noext");
    // No file name: the path itself.
    assert_eq!(spec_base_name("/"), "/");
    assert_eq!(spec_base_name(".."), "..");
    assert_eq!(spec_base_name("x/a."), "a");
    assert_eq!(spec_base_name("x/.a.b"), ".a");
    assert_eq!(spec_base_name("x/..."), "..");
    assert_eq!(spec_base_name("a/b/"), "b");
    assert_eq!(spec_base_name("a/b/."), "b");
}

#[test]
fn base_name_falls_back_to_the_path() {
    assert_eq!(base_name_from_stem(Some(String::from("s")), "x/s.tla"), "s");
    assert_eq!(base_name_from_stem(None, "x/.."), "x/..");
}

#[test]
fn tool_error_keeps_its_message() {
    assert_eq!(ToolError::new(String::from("no java")).message, "no java");
}

#[test]
fn tally_counts_passes_and_failures() {
    assert_eq!(tally(&vec![]), (0, 0));
    assert_eq!(tally(&vec![true]), (1, 0));
    assert_eq!(tally(&vec![true, false, true, false, false]), (2, 3));
}

#[test]
fn header_lines_without_markers_change_nothing() {
    let header = "TLC2 Version 2.19 of 08 August 2024\nwith fp 93 and seed 2436805577566022128\n";
    for output in [SUCCESS_OUTPUT, REJECT_OUTPUT, "jibberish", "12 states generated,"] {
        let with_header = format!("{header}{output}");
        assert_eq!(parse_tlc_output(&with_header, 7), parse_tlc_output(output, 7));
    }
}

fn cfg_of(name: &str) -> Option<String> {
    sibling_config_name(&name.as_bytes().to_vec()).map(|c| String::from_utf8(c).unwrap())
}

#[test]
fn sibling_config_follows_path_extension_rules() {
    assert_eq!(cfg_of("trivial.tla").as_deref(), Some("trivial.cfg"));
    assert_eq!(cfg_of("a.b.tla").as_deref(), Some("a.b.cfg"));
    assert_eq!(cfg_of("a..tla").as_deref(), Some("a..cfg"));
    // `Path::with_extension` turns "..tla" into "..", the parent directory.
    assert_eq!(cfg_of("..tla").as_deref(), Some(".."));
    assert_eq!(cfg_of(".tla"), None);
    assert_eq!(cfg_of("tla"), None);
    assert_eq!(cfg_of("a.cfg"), None);
    assert_eq!(cfg_of("a.TLA"), None);
    assert_eq!(cfg_of("a.tla.bak"), None);
    for name in ["trivial.tla", "a.b.tla", "..tla", "a..tla", "...tla", ".a.tla", ".tla", "tla", "a.cfg", "x.tla", "é.tla"] {
        let p = std::path::Path::new(name);
        let expected = if p.extension().and_then(|e| e.to_str()) == Some("tla") {
            Some(p.with_extension("cfg").to_str().unwrap().to_string())
        } else {
            None
        };
        assert_eq!(cfg_of(name), expected, "{name}");
    }
}

#[test]
fn sibling_config_keeps_names_that_are_not_utf8() {
    let name: Vec<u8> = vec![0xff, 0xfe, b'.', b't', b'l', b'a'];
    assert_eq!(
        sibling_config_name(&name),
        Some(vec![0xff, 0xfe, b'.', b'c', b'f', b'g'])
    );
}

#[test]
fn names_sort_like_paths() {
    let names: Vec<Vec<u8>> = ["b.tla", "a.tla", "B.tla", "é.tla", "a0.tla", "a.tla.tla", "z.tla"]
        .iter()
        .map(|s| s.as_bytes().to_vec())
        .chain(std::iter::once(vec![0xff, b'.', b't', b'l', b'a']))
        .chain(std::iter::once(vec![0x80, b'.', b't', b'l', b'a']))
        .collect();
    let sorted = sort_names(names.clone());
    let mut expected = names.clone();
    expected.sort();
    assert_eq!(sorted, expected);
    let as_path = |n: &Vec<u8>| {
        std::path::Path::new("dir").join(String::from_utf8_lossy(n).into_owned())
    };
    let utf8: Vec<Vec<u8>> = sorted.iter().filter(|n| std::str::from_utf8(n).is_ok()).cloned().collect();
    let mut paths: Vec<std::path::PathBuf> = utf8.iter().map(as_path).collect();
    paths.sort();
    let from_sorted: Vec<std::path::PathBuf> = utf8.iter().map(as_path).collect();
    assert_eq!(from_sorted, paths);
    assert_eq!(sort_names(vec![]), Vec::<Vec<u8>>::new());
}

#[test]
fn file_stem_of_a_file_name_follows_the_documented_rule() {
    for path in ["foo.tla", "d/foo.tla", "d/.hidden", "d/a.b.c", "a.", ".a.b", "...", "x//y.z", "é/ü.tla"] {
        let name = path.rsplit('/').next().unwrap();
        let stem = match name.rfind('.') {
            None | Some(0) => name,
            Some(k) => &name[..k],
        };
        assert_eq!(spec_base_name(path), stem, "{path}");
    }
}

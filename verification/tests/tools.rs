use local_pass::mcp_tools::{cap_body, BODY_CAP};
use local_pass::mcp_tools::{
    all_specs, cap_full_read, first_matching_line, method_from_upper, name_matches,
    needs_powershell, not_embedded, parse_line_range, parse_method, search_lines, search_needle,
    select_lines, shell_for, tool_for, tree_entry, is_success_status, read_only_gate, exec_outcome, read_mode, descends, entries_listed, CappedList, HttpMethod, ReadMode, Shell, Tool,
};

fn lines(v: &[&str]) -> Vec<Option<String>> {
    v.iter().map(|s| Some(s.to_string())).collect()
}

#[test]
fn specs_cover_every_embedded_tool() {
    let specs = all_specs();
    assert_eq!(specs.len(), 11);
    for s in &specs {
        assert!(tool_for(s.name).is_some(), "{} must dispatch", s.name);
        let v: serde_json::Value = serde_json::from_str(s.schema).expect("schema is JSON");
        assert_eq!(v["type"], "object");
    }
    assert_eq!(specs[0].name, "read_file");
    assert_eq!(specs[10].name, "psession_read");
    let read = serde_json::from_str::<serde_json::Value>(specs[0].schema).unwrap();
    assert_eq!(read["required"][0], "path");
    assert_eq!(read["properties"]["max_kb"]["type"], "integer");
}

#[test]
fn dispatch_by_name() {
    assert_eq!(tool_for("read_file"), Some(Tool::ReadFile));
    assert_eq!(tool_for("psession_read"), Some(Tool::PsessionRead));
    assert_eq!(tool_for("kill_process"), None);
    assert_eq!(not_embedded("kill_process"), "tool 'kill_process' is not embedded in this gateway");
}

#[test]
fn line_ranges() {
    assert_eq!(parse_line_range("50:100"), Ok((50, 100)));
    assert_eq!(parse_line_range("7:"), Ok((7, 7)));
    assert_eq!(parse_line_range(":9"), Ok((1, 9)));
    assert_eq!(parse_line_range("+3:+4"), Ok((3, 4)));
    assert_eq!(parse_line_range("5").unwrap_err(), "lines format: 'start:end'");
    assert_eq!(parse_line_range("1:2:3").unwrap_err(), "lines format: 'start:end'");
    assert_eq!(parse_line_range("0:5").unwrap_err(), "invalid line range");
    assert_eq!(parse_line_range("9:2").unwrap_err(), "invalid line range");
    assert_eq!(parse_line_range("abc:x"), Ok((1, 1)));
    assert_eq!(parse_line_range("99999999999999999999999:3"), Ok((1, 3)));
}

#[test]
fn line_search_is_case_insensitive_and_capped() {
    let hits = search_lines(&lines(&["Alpha", "beta", "ALPHABET"]), "alpha");
    assert_eq!(hits.matches, vec!["1:Alpha", "3:ALPHABET"]);
    assert_eq!(hits.lines_scanned, 3);
    let many: Vec<Option<String>> = (0..300).map(|i| Some(format!("x{i}"))).collect();
    let hits = search_lines(&many, "X");
    assert_eq!(hits.matches.len(), 201);
    assert_eq!(hits.matches[199], "200:x199");
    assert_eq!(hits.matches[200], "[...truncated at 200 matches]");
    assert_eq!(hits.lines_scanned, 200);
    let with_bad = vec![None, Some("needle".to_string())];
    let hits = search_lines(&with_bad, "NEEDLE");
    assert_eq!(hits.matches, vec!["2:needle"]);
    assert_eq!(hits.lines_scanned, 2);
}

#[test]
fn line_selection() {
    let ls = lines(&["a", "b", "c", "d"]);
    assert_eq!(select_lines(&ls, 2, 3), vec!["2:b", "3:c"]);
    assert_eq!(select_lines(&ls, 3, 100), vec!["3:c", "4:d"]);
    assert!(select_lines(&ls, 5, 9).is_empty());
    let gap = vec![Some("a".to_string()), None, Some("c".to_string())];
    assert_eq!(select_lines(&gap, 1, 3), vec!["1:a", "3:c"]);
}

#[test]
fn full_reads_are_capped_by_kb() {
    let small = "hello";
    let r = cap_full_read(small, 200);
    assert_eq!(r.content, "hello");
    assert_eq!(r.truncated_kb, None);
    let big = "é".repeat(1024); // 2048 bytes, 2 KB
    let r = cap_full_read(&big, 1);
    assert_eq!(r.truncated_kb, Some(2));
    assert_eq!(r.content.len(), 1024);
    assert_eq!(r.content.chars().count(), 512);
    let r = cap_full_read(&big, 2);
    assert_eq!(r.truncated_kb, None);
    assert_eq!(r.content, big);
    let r = cap_full_read(&big, 0);
    assert_eq!(r.content, "");
    assert_eq!(r.truncated_kb, Some(2));
    let r = cap_full_read(&big, -1);
    assert_eq!(r.content, "");
    assert_eq!(r.truncated_kb, Some(2));
    // A 1025-byte file is over a 1 KB cap.
    let just_over = "a".repeat(1025);
    let r = cap_full_read(&just_over, 1);
    assert_eq!(r.truncated_kb, Some(1));
    assert_eq!(r.content, "a".repeat(1024));
    // The cut never splits a character.
    let odd = format!("a{}", "é".repeat(600));
    let r = cap_full_read(&odd, 1);
    assert_eq!(r.content.len(), 1023);
    assert!(odd.starts_with(&r.content));
}

#[test]
fn tree_lines() {
    assert_eq!(tree_entry(0, "src", true), "src/");
    assert_eq!(tree_entry(2, "main.rs", false), "    main.rs");
}

#[test]
fn file_search_helpers() {
    assert_eq!(search_needle("").unwrap_err(), "pattern is required");
    let needle = search_needle("ReadMe").unwrap();
    assert_eq!(needle, "readme");
    assert!(name_matches("README.md", &needle));
    assert!(!name_matches("main.rs", &needle));
    assert_eq!(first_matching_line("one\r\n  two TODO  \nthree", "todo"), Some((2, "two TODO".to_string())));
    assert_eq!(first_matching_line("nothing here", "todo"), None);
}

#[test]
fn shell_choice() {
    assert!(needs_powershell("Get-ChildItem"));
    assert!(needs_powershell("echo $env:PATH"));
    assert!(!needs_powershell("dir /b"));
    assert_eq!(shell_for("dir"), Shell::Cmd);
    assert_eq!(shell_for("ls | Where-Object"), Shell::PowerShell);
    assert_eq!(Shell::PowerShell.program(), "powershell");
    assert_eq!(Shell::Cmd.program(), "cmd");
    assert_eq!(Shell::Cmd.args("dir"), vec!["/C", "dir"]);
    assert_eq!(Shell::PowerShell.args("Get-Date"), vec!["-NoProfile", "-NonInteractive", "-Command", "Get-Date"]);
}

#[test]
fn http_methods() {
    assert_eq!(parse_method("get"), Ok(HttpMethod::Get));
    assert_eq!(parse_method("Patch"), Ok(HttpMethod::Patch));
    assert_eq!(parse_method("head"), Ok(HttpMethod::Head));
    assert_eq!(parse_method("fetch").unwrap_err(), "unsupported method: FETCH");
    assert_eq!(method_from_upper("DELETE"), Ok(HttpMethod::Delete));
    assert_eq!(method_from_upper("delete").unwrap_err(), "unsupported method: delete");
    assert!(is_success_status(200));
    assert!(is_success_status(299));
    assert!(!is_success_status(300));
    assert!(!is_success_status(199));
}

#[test]
fn response_bodies_are_capped() {
    assert_eq!(cap_body("short"), ("short", false));
    let long = "a".repeat(BODY_CAP + 10);
    let (body, cut) = cap_body(&long);
    assert!(cut);
    assert_eq!(body.len(), BODY_CAP);
    let straddle = format!("a{}", "é".repeat(BODY_CAP / 2));
    let (body, cut) = cap_body(&straddle);
    assert!(cut);
    assert_eq!(body.len(), BODY_CAP - 1);
    assert!(straddle.starts_with(body));
    let exact = "b".repeat(BODY_CAP);
    assert_eq!(cap_body(&exact), (exact.as_str(), false));
}

#[test]
fn read_only_gate_refuses_mutations() {
    let ro = local_pass::guard::Guard::new("/srv".to_string(), true);
    let rw = local_pass::guard::Guard::new("/srv".to_string(), false);
    assert_eq!(
        read_only_gate(&ro, Tool::SmartExec).unwrap_err(),
        "shell execution is denied: server is running in --read-only mode"
    );
    assert_eq!(
        read_only_gate(&ro, Tool::WriteFile).unwrap_err(),
        "write_file is denied: server is running in --read-only mode"
    );
    assert!(read_only_gate(&ro, Tool::PsessionRun).is_err());
    assert!(read_only_gate(&ro, Tool::PsessionCreate).is_err());
    assert_eq!(
        read_only_gate(&ro, Tool::PsessionDestroy).unwrap_err(),
        "psession_destroy is denied: server is running in --read-only mode"
    );
    assert!(read_only_gate(&ro, Tool::PsessionList).is_ok());
    assert!(read_only_gate(&ro, Tool::PsessionRead).is_ok());
    assert!(read_only_gate(&rw, Tool::PsessionDestroy).is_ok());
    assert!(read_only_gate(&ro, Tool::ReadFile).is_ok());
    assert!(read_only_gate(&rw, Tool::WriteFile).is_ok());
}

#[test]
fn capped_results_stop_at_the_cap() {
    let mut c: CappedList<u32> = CappedList::new(2);
    assert!(!c.is_full());
    assert!(c.push(1));
    assert!(c.push(2));
    assert!(c.is_full());
    assert!(!c.push(3));
    assert_eq!(c.len(), 2);
    assert_eq!(c.into_vec(), vec![1, 2]);
    let mut none: CappedList<u32> = CappedList::new(0);
    assert!(none.is_full());
    assert!(!none.push(1));
    assert_eq!(none.into_vec(), Vec::<u32>::new());
}

#[test]
fn command_outcomes() {
    let ok = exec_outcome("  hello\n", "\twarn \n", Some(0), true);
    assert_eq!(ok.stdout, "hello");
    assert_eq!(ok.stderr, "warn");
    assert_eq!(ok.exit_code, 0);
    assert!(ok.success && !ok.is_error);
    let killed = exec_outcome("", "", None, false);
    assert_eq!(killed.exit_code, -1);
    assert!(!killed.success && killed.is_error);
    let failed = exec_outcome("x", "", Some(2), false);
    assert_eq!(failed.exit_code, 2);
    assert!(failed.is_error);
}

#[test]
fn read_modes() {
    assert_eq!(read_mode(true, true), ReadMode::Search);
    assert_eq!(read_mode(false, true), ReadMode::Lines);
    assert_eq!(read_mode(false, false), ReadMode::Full);
}

#[test]
fn listing_limits() {
    assert_eq!(entries_listed(3), 3);
    assert_eq!(entries_listed(500), 500);
    assert_eq!(entries_listed(501), 500);
    assert!(descends(0, 2, true));
    assert!(!descends(2, 2, true));
    assert!(!descends(0, 2, false));
}

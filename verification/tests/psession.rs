use local_pass::psession::{
    check_run_request, check_session_id, collect_output, completed_report, fresh_marker, marker_from,
    not_found, op_for, record_command, timed_out_report,
    script_for, session_id_for, tail_text, unknown_op, SessionOp, SessionTable,
};

fn buf(v: &[&str]) -> Vec<String> {
    v.iter().map(|s| s.to_string()).collect()
}

#[test]
fn table_reads_back_what_was_written() {
    let mut t: SessionTable<u32> = SessionTable::new();
    assert_eq!(t.len(), 0);
    assert_eq!(t.insert("powershell_a".to_string(), 1), None);
    assert_eq!(t.insert("powershell_b".to_string(), 2), None);
    assert_eq!(t.get("powershell_a"), Some(&1));
    assert_eq!(t.insert("powershell_a".to_string(), 3), Some(1));
    assert_eq!(t.get("powershell_a"), Some(&3));
    assert_eq!(t.len(), 2);
    assert_eq!(t.remove("powershell_a"), Some(3));
    assert_eq!(t.get("powershell_a"), None);
    assert_eq!(t.remove("powershell_a"), None);
    assert_eq!(t.get("powershell_b"), Some(&2));
    assert_eq!(t.find("powershell_b"), Some(0));
    let (id, v) = t.entry(0);
    assert_eq!(id, "powershell_b");
    assert_eq!(*v, 2);
    let slot = t.session_at_mut(0);
    assert_eq!(*slot, 2);
    *slot = 7;
    assert_eq!(t.get("powershell_b"), Some(&7));
    assert_eq!(t.len(), 1);
}

#[test]
fn session_names_and_messages() {
    assert_eq!(session_id_for("default"), "powershell_default");
    assert_eq!(not_found("x"), "session not found: x");
    assert_eq!(unknown_op("psession_kill"), "unknown psession tool: psession_kill");
    assert_eq!(op_for("psession_run"), Some(SessionOp::Run));
    assert_eq!(op_for("psession_kill"), None);
    assert_eq!(check_run_request("", "ls").unwrap_err(), "session_id and command are required");
    assert_eq!(check_run_request("s", "").unwrap_err(), "session_id and command are required");
    assert!(check_run_request("s", "ls").is_ok());
    assert_eq!(check_session_id("").unwrap_err(), "session_id is required");
    assert!(check_session_id("s").is_ok());
}

#[test]
fn markers() {
    assert_eq!(marker_from("67e55044-10b1-426f-9247-bb680e5fe0c8"), "__DONE_67e55044__");
    assert_eq!(marker_from("abc"), "__DONE_00000000__");
    assert_eq!(marker_from("ééééé"), "__DONE_éééé__");
    assert_eq!(marker_from("aééééé"), "__DONE_00000000__");
    let m = fresh_marker();
    assert_eq!(m.len(), 17);
    assert!(m[7..15].chars().all(|c| c.is_ascii_hexdigit() && !c.is_ascii_uppercase()));
    assert!(m.starts_with("__DONE_") && m.ends_with("__"));
    assert_ne!(fresh_marker(), fresh_marker());
    assert_eq!(script_for("dir", "__DONE_1__"), "dir\nWrite-Output '__DONE_1__'\n");
}

#[test]
fn output_up_to_the_marker() {
    let b = buf(&["old", "one", "two", "__DONE_x__", "later"]);
    assert_eq!(collect_output(&b, 1, "__DONE_x__"), (buf(&["one", "two"]), true));
    assert_eq!(collect_output(&b, 1, "__DONE_y__"), (buf(&["one", "two", "__DONE_x__", "later"]), false));
    assert_eq!(collect_output(&b, 9, "__DONE_x__"), (Vec::new(), false));
    assert_eq!(collect_output(&b, 3, "__DONE_x__"), (Vec::new(), true));
}

#[test]
fn tail_of_buffer() {
    let b = buf(&["a", "b", "c"]);
    assert_eq!(tail_text(&b, 2), "b\nc");
    assert_eq!(tail_text(&b, 20), "a\nb\nc");
    assert_eq!(tail_text(&b, 0), "");
}

#[test]
fn run_reports() {
    let b = buf(&["old", "one", "two", "__DONE_x__", "later"]);
    let done = completed_report(&b, 1, "__DONE_x__").unwrap();
    assert_eq!(done.output, "one\ntwo");
    assert_eq!(done.lines, 2);
    assert!(done.completed && !done.timed_out);
    assert!(completed_report(&b, 1, "__DONE_y__").is_none());
    let late = timed_out_report(&b, 1);
    assert_eq!(late.output, "one\ntwo\n__DONE_x__\nlater");
    assert_eq!(late.lines, 4);
    assert!(!late.completed && late.timed_out);
    let none = timed_out_report(&b, 9);
    assert_eq!(none.output, "");
    assert_eq!(none.lines, 0);
}

#[test]
fn history_records_written_commands() {
    let mut h = vec!["dir".to_string()];
    record_command(&mut h, "ls", true);
    assert_eq!(h, vec!["dir".to_string(), "ls".to_string()]);
    record_command(&mut h, "pwd", false);
    assert_eq!(h.len(), 2);
}

#[test]
fn listing_has_one_entry_per_id() {
    let mut t: SessionTable<u32> = SessionTable::new();
    t.insert("powershell_default".to_string(), 1);
    t.insert("powershell_default".to_string(), 2);
    t.insert("powershell_other".to_string(), 3);
    assert_eq!(t.len(), 2);
    let (a, _) = t.entry(0);
    let (b, _) = t.entry(1);
    assert_ne!(a, b);
    assert_eq!(t.get("powershell_default"), Some(&2));
}

use local_pass::profile::{full, lean, Profile};

#[test]
fn lean_is_the_default_surface() {
    let p = Profile::resolve("lean").unwrap();
    assert!(p.allows("read_file"));
    assert!(p.allows("http_request"));
    // process-kill / clipboard / registry are never embedded → never allowed.
    assert!(!p.allows("kill_process"));
    assert!(!p.allows("clipboard_read"));
    assert!(!p.allows("registry_read"));
}

#[test]
fn unknown_profile_is_rejected() {
    assert!(Profile::resolve("kitchen-sink").is_err());
}

#[test]
fn full_is_a_superset_of_lean() {
    let lean = Profile::resolve("lean").unwrap();
    let full = Profile::resolve("full").unwrap();
    for t in lean.allowed() {
        assert!(full.allows(t), "full must contain lean tool {t}");
    }
}

#[test]
fn unknown_profile_message_names_the_valid_ones() {
    match Profile::resolve("kitchen-sink") {
        Err(e) => assert_eq!(e, "unknown profile 'kitchen-sink' (valid: lean, full)"),
        Ok(_) => panic!("unknown profile accepted"),
    }
}

#[test]
fn profile_names_and_lists() {
    let lean_p = Profile::resolve("lean").unwrap();
    assert_eq!(lean_p.name(), "lean");
    assert_eq!(lean_p.allowed().len(), 9);
    assert_eq!(lean_p.allowed(), lean().as_slice());
    let full_p = Profile::resolve("full").unwrap();
    assert_eq!(full_p.name(), "full");
    assert_eq!(full_p.allowed(), full().as_slice());
    assert!(full_p.allows("psession_list"));
    assert!(!lean_p.allows("psession_list"));
    assert!(!lean_p.allows("psession_read"));
    // names are case-sensitive
    assert!(Profile::resolve("Lean").is_err());
    assert!(!lean_p.allows("READ_FILE"));
    let copy = full_p.clone();
    assert_eq!(copy.name(), "full");
    assert_eq!(copy.allowed(), full_p.allowed());
}

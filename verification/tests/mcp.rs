use local_pass::guard::Guard;
use local_pass::mcp::{resolve_root, GatewayHandler};
use local_pass::profile::Profile;

fn handler(profile: &str, read_only: bool) -> GatewayHandler {
    GatewayHandler::new(Profile::resolve(profile).unwrap(), Guard::new("/srv/root".to_string(), read_only))
}

#[test]
fn listing_follows_the_profile() {
    let lean = handler("lean", false);
    let names: Vec<&str> = lean.visible_tools().iter().map(|t| t.name).collect();
    assert_eq!(names.len(), 9);
    assert!(!names.contains(&"psession_list"));
    assert_eq!(names[6], "psession_create");
    let full = handler("full", false);
    assert_eq!(full.visible_tools().len(), 11);
    assert!(lean.get_tool("psession_read").is_none());
    assert_eq!(full.get_tool("psession_read").unwrap().name, "psession_read");
    assert!(full.get_tool("kill_process").is_none());
}

#[test]
fn calls_outside_the_profile_are_refused() {
    let lean = handler("lean", false);
    assert!(lean.admit_call("read_file").is_ok());
    assert_eq!(
        lean.admit_call("psession_list").unwrap_err(),
        "tool 'psession_list' is not permitted by the active 'lean' profile"
    );
    assert!(lean.admit_call("kill_process").is_err());
}

#[test]
fn self_description() {
    let h = handler("lean", true);
    assert_eq!(
        h.description(),
        "Remote MCP gateway exposing the 'lean' tool profile, root-scoped to /srv/root (read-only)."
    );
    assert_eq!(
        handler("full", false).description(),
        "Remote MCP gateway exposing the 'full' tool profile, root-scoped to /srv/root."
    );
    assert_eq!(
        h.instructions(),
        "Local-Pass gateway. Active profile: 'lean'. All file paths are scoped to /srv/root. Tools not in the profile are neither listed nor callable."
    );
    let c = h.clone();
    assert_eq!(c.profile().name(), "lean");
    assert!(c.guard().is_read_only());
}

#[test]
fn root_precedence() {
    let s = |x: &str| Some(x.to_string());
    assert_eq!(resolve_root(s("/a"), s("/b"), s("/h")), "/a");
    assert_eq!(resolve_root(None, s("/b"), s("/h")), "/b");
    assert_eq!(resolve_root(None, s("  "), s("/h")), "/h");
    assert_eq!(resolve_root(None, None, None), ".");
}

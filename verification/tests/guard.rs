use local_pass::guard::lexical_normalize;
use local_pass::guard::Guard;

fn guard_at(dir: &str) -> Guard {
    Guard::new(dir.to_string(), false)
}

fn no_file(_: String) -> Option<String> {
    None
}

fn under(p: &str, root: &str) -> bool {
    local_pass::path::path_starts_with(p, root)
}

#[test]
fn in_root_paths_resolve() {
    let g = guard_at("/tmp/lp-guard-root");
    let p = g.resolve_in_root("sub/file.txt", no_file).unwrap();
    assert!(under(&p, g.root()));
    assert_eq!(p, "/tmp/lp-guard-root/sub/file.txt");
}

#[test]
fn dotdot_escape_is_rejected() {
    let g = guard_at("/tmp/lp-guard-root/a/b");
    // Enough `..` segments to climb above the (deep) temp root must NOT
    // resolve to a path under it — the guard rejects the escape outright.
    assert!(
        g.resolve_in_root("../../../../../../../../etc/passwd", no_file).is_err(),
        "deep ../ escape must be rejected, not silently resolved"
    );
    // A `..` that stays within the root is fine.
    let inside = g.resolve_in_root("sub/../allowed.txt", no_file).unwrap();
    assert!(under(&inside, g.root()));
    assert_eq!(inside, "/tmp/lp-guard-root/a/b/allowed.txt");
}

#[test]
fn absolute_outside_root_is_rejected() {
    let g = guard_at("/tmp/lp-guard-root");
    assert!(g.resolve_in_root("/etc/passwd", no_file).is_err());
    let e = g.resolve_in_root("/etc/passwd", no_file).unwrap_err();
    assert_eq!(
        e,
        "path '/etc/passwd' resolves to '/etc/passwd', which is outside the safe root '/tmp/lp-guard-root'"
    );
}

#[test]
fn read_only_blocks_mutations() {
    let g = Guard::new("/tmp".to_string(), true);
    assert!(g.deny_if_read_only("write_file").is_err());
    assert!(g.is_read_only());
    assert_eq!(
        g.deny_if_read_only("write_file").unwrap_err(),
        "write_file is denied: server is running in --read-only mode"
    );
    let rw = Guard::new("/tmp".to_string(), false);
    assert!(rw.deny_if_read_only("write_file").is_ok());
    assert!(!rw.is_read_only());
}

#[test]
fn blank_path_is_refused() {
    let g = guard_at("/srv/root");
    assert_eq!(g.resolve_in_root("", no_file).unwrap_err(), "path is empty");
    assert_eq!(g.resolve_in_root("  \t\n", no_file).unwrap_err(), "path is empty");
    assert_eq!(g.lexical_target("\u{3000}").unwrap_err(), "path is empty");
}

#[test]
fn lexical_target_collapses_dots() {
    let g = guard_at("/srv/root");
    assert_eq!(g.lexical_target("a/./b/../c").unwrap(), "/srv/root/a/c");
    assert_eq!(g.lexical_target("a//b/").unwrap(), "/srv/root/a/b");
    assert_eq!(g.lexical_target("..").unwrap(), "/srv");
    assert_eq!(g.lexical_target("../../../../x").unwrap(), "/x");
    assert_eq!(g.lexical_target("/etc/../var").unwrap(), "/var");
    assert_eq!(g.lexical_target(".").unwrap(), "/srv/root");
}

#[test]
fn canonical_form_is_what_is_checked() {
    let g = guard_at("/srv/root");
    // a symlink inside the root that points outside is caught
    let out = g.resolve_in_root("link", |_| Some("/etc/shadow".to_string()));
    assert!(out.is_err());
    // a canonical path inside the root is returned as found
    let ok = g.resolve_in_root("x/../y", |_| Some("/srv/root/real/y".to_string()));
    assert_eq!(ok.unwrap(), "/srv/root/real/y");
    // the root itself is inside the root
    assert_eq!(g.resolve_in_root(".", no_file).unwrap(), "/srv/root");
}

#[test]
fn containment_is_by_component() {
    let g = guard_at("/srv/root");
    // a sibling whose name extends the root's last component is outside
    assert!(g.confirm_in_root("x", "/srv/rootkit/x".to_string()).is_err());
    assert_eq!(g.confirm_in_root("x", "/srv/root/x".to_string()).unwrap(), "/srv/root/x");
    // a relative candidate never lies under an absolute root
    assert!(g.confirm_in_root("x", "srv/root/x".to_string()).is_err());
}

#[test]
fn cloned_guard_keeps_its_settings() {
    let g = Guard::new("/srv/root".to_string(), true);
    let c = g.clone();
    assert_eq!(c.root(), "/srv/root");
    assert!(c.is_read_only());
}

#[test]
fn lexical_normalize_keeps_the_anchor() {
    assert_eq!(lexical_normalize("/a/b/../c/./d"), "/a/c/d");
    assert_eq!(lexical_normalize("/../../etc"), "/etc");
    assert_eq!(lexical_normalize("../x"), "x");
    assert_eq!(lexical_normalize("a/.."), "");
}

#[test]
fn lexical_normalize_is_idempotent() {
    for p in ["/a/b/../c/./d", "../../x/./y/..", "a//b/", "/", "./.."] {
        let once = lexical_normalize(p);
        assert_eq!(lexical_normalize(&once), once);
    }
}

#[test]
fn relative_request_matches_root_joined() {
    let g = guard_at("/srv/root");
    let rel = g.resolve_in_root("a/../b/./c.txt", no_file).unwrap();
    let abs = g.resolve_in_root("/srv/root/a/../b/./c.txt", no_file).unwrap();
    assert_eq!(rel, abs);
    assert_eq!(rel, "/srv/root/b/c.txt");
}

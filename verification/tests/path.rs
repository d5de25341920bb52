use local_pass::path::{is_rooted, normalize_components, path_starts_with, render_path, split_components};

#[test]
fn splitting_drops_empty_and_current_components() {
    assert_eq!(split_components("/a//b/./c/"), vec!["a", "b", "c"]);
    assert_eq!(split_components("./x/../y"), vec!["x", "..", "y"]);
    assert!(split_components("/").is_empty());
    assert!(split_components("").is_empty());
}

#[test]
fn normalizing_resolves_parents() {
    let cs = split_components("a/b/../../../c/./d/..");
    assert_eq!(normalize_components(&cs), vec!["c"]);
}

#[test]
fn rendering_round_trips() {
    let cs = split_components("/usr/local/bin");
    assert_eq!(render_path(true, &cs), "/usr/local/bin");
    assert_eq!(render_path(false, &cs), "usr/local/bin");
    assert_eq!(render_path(true, &Vec::new()), "/");
    assert_eq!(render_path(false, &Vec::new()), "");
}

#[test]
fn prefix_is_component_wise() {
    assert!(path_starts_with("/a/b/c", "/a/b"));
    assert!(path_starts_with("/a/b/", "/a/b"));
    assert!(!path_starts_with("/a/bc", "/a/b"));
    assert!(!path_starts_with("a/b", "/a"));
    assert!(path_starts_with("/anything", "/"));
    assert!(is_rooted("/x"));
    assert!(!is_rooted("x/"));
}

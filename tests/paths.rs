use mmv::path::{absolute_path, normalize_path, path_components};

#[test]
fn normalize_collapses_separators_and_dots() {
    assert_eq!(normalize_path("/a//b/./c/../d"), "/a/b/d");
    assert_eq!(normalize_path("/a/b/"), "/a/b");
    assert_eq!(normalize_path("./a/"), "a");
}

#[test]
fn normalize_never_climbs_above_root() {
    assert_eq!(normalize_path("/.."), "/");
    assert_eq!(normalize_path("/../../x"), "/x");
    assert_eq!(normalize_path("a/../.."), "");
}

#[test]
fn normalize_is_idempotent_on_examples() {
    for p in ["/a//b/./c/../d", "x/./../y/", "/", "", "../a/b/..", "//a"] {
        let once = normalize_path(p);
        assert_eq!(normalize_path(&once), once);
        for piece in once.split('/') {
            assert!(piece != "." && piece != "..");
        }
    }
}

#[test]
fn components_of_a_path() {
    assert_eq!(path_components("/a/./b//c/.."), vec!["a".to_string(), "b".to_string()]);
    assert!(path_components("/").is_empty());
}

#[test]
fn relative_paths_resolve_against_cwd() {
    assert_eq!(absolute_path("/work", "d/g"), "/work/d/g");
    assert_eq!(absolute_path("/work", "../up"), "/up");
    assert_eq!(absolute_path("/work", "/x/../y"), "/y");
    assert_eq!(absolute_path("/work/", "."), "/work");
}

use sandbox_vfs::path::{
    components_of, is_absolute_path, is_root_path, join_paths, normalize_path, parent_of,
    path_starts_with, paths_equal, render_components,
};

fn comps(v: &[&str]) -> Vec<Vec<u8>> {
    v.iter().map(|s| s.as_bytes().to_vec()).collect()
}

#[test]
fn components_follow_std_path_rules() {
    assert_eq!(components_of(b"/a//b/./c/"), comps(&["a", "b", "c"]));
    assert_eq!(components_of(b"./a/../b"), comps(&[".", "a", "..", "b"]));
    assert_eq!(components_of(b"a/./."), comps(&["a"]));
    assert_eq!(components_of(b"/"), comps(&[]));
    assert_eq!(components_of(b""), comps(&[]));
}

#[test]
fn absolute_root_and_equality() {
    assert!(is_absolute_path(b"/x"));
    assert!(!is_absolute_path(b"x"));
    assert!(!is_absolute_path(b""));
    assert!(is_root_path(b"/"));
    assert!(is_root_path(b"//./"));
    assert!(!is_root_path(b"/a"));
    assert!(paths_equal(b"/a/b/", b"/a//b"));
    assert!(!paths_equal(b"/a/b", b"a/b"));
    assert!(path_starts_with(b"/a/b/c", b"/a/b"));
    assert!(!path_starts_with(b"/a/bc", b"/a/b"));
    assert!(!path_starts_with(b"/a", b"/a/b"));
}

#[test]
fn join_and_render() {
    assert_eq!(join_paths(b"/a", b"b"), b"/a/b".to_vec());
    assert_eq!(join_paths(b"/a/", b"b"), b"/a/b".to_vec());
    assert_eq!(join_paths(b"/a", b"/b"), b"/b".to_vec());
    assert_eq!(join_paths(b"", b"b"), b"b".to_vec());
    assert_eq!(render_components(&comps(&["x", "y"])), b"/x/y".to_vec());
    assert_eq!(render_components(&comps(&[])), b"/".to_vec());
}

#[test]
fn normalize_folds_dots_without_leaving_the_root() {
    assert_eq!(normalize_path(b"/a/./b/../c"), b"/a/c".to_vec());
    assert_eq!(normalize_path(b"/../../x"), b"/x".to_vec());
    assert_eq!(normalize_path(b"/"), b"/".to_vec());
    let once = normalize_path(b"/p/q/../r/./");
    assert_eq!(normalize_path(&once), once);
}

#[test]
fn parent_paths() {
    assert_eq!(parent_of(b"/a/b"), Some(b"/a".to_vec()));
    assert_eq!(parent_of(b"/a"), Some(b"/".to_vec()));
    assert_eq!(parent_of(b"/"), None);
    assert_eq!(parent_of(b"a/b"), Some(b"a".to_vec()));
    assert_eq!(parent_of(b"a"), Some(b"".to_vec()));
}

use sola::paths::same_path;

#[test]
fn paths_compare_by_components() {
    assert!(same_path("docs/a.md", "docs//a.md"));
    assert!(same_path("a/./b", "a/b"));
    assert!(same_path("a/b/", "a/b"));
    assert!(same_path("/a/b", "/a/b/."));
    assert!(same_path("./a", ".//a"));
    assert!(!same_path("./a", "a"));
    assert!(!same_path("/a", "a"));
    assert!(!same_path("a/../b", "b"));
    assert!(!same_path("a/b", "a/c"));
    assert!(same_path("", ""));
    assert!(!same_path(".", ""));
}

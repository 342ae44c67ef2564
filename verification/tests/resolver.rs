use memfs::path::{resolve, CanonPath};

fn path_of(text: &str) -> CanonPath {
    resolve(&CanonPath::root(), text)
}

#[test]
fn resolver_self_is_identity() {
    let cwd = path_of("/a/b");
    let r = resolve(&cwd, ".");
    assert!(r == cwd);
    assert_eq!(r.to_display_string(), "/a/b/");
}

#[test]
fn resolver_parent_at_root_is_noop() {
    let root = CanonPath::root();
    let r = resolve(&root, "..");
    assert!(r == root);
    assert!(r.is_root());
    assert_eq!(r.to_display_string(), "/");
}

#[test]
fn resolver_parent_removes_last_segment() {
    let cwd = path_of("/a/b");
    let r = resolve(&cwd, "..");
    assert!(r == path_of("/a"));
}

#[test]
fn resolver_composition() {
    let cwd = path_of("/a/b");
    let r = resolve(&cwd, "../c");
    assert!(r == path_of("/a/c"));
    assert_eq!(r.to_display_string(), "/a/c/");
}

#[test]
fn resolver_absolute_fragment_resets() {
    let cwd = path_of("/a/b");
    let r = resolve(&cwd, "/x/y");
    assert!(r == path_of("/x/y"));
}

#[test]
fn resolver_relative_fragment_appends() {
    let cwd = path_of("/a");
    let r = resolve(&cwd, "b/c");
    assert!(r == path_of("/a/b/c"));
}

#[test]
fn resolver_skips_empty_and_self_segments() {
    let r = path_of("/x//y/./");
    assert!(r == path_of("/x/y"));
    assert_eq!(r.to_display_string(), "/x/y/");
}

#[test]
fn resolver_empty_fragment_keeps_cwd() {
    let cwd = path_of("/a/b");
    let r = resolve(&cwd, "");
    assert!(r == cwd);
}

#[test]
fn resolver_parent_does_not_underflow_past_root() {
    let r = path_of("/../../a");
    assert!(r == path_of("/a"));
}

#[test]
fn display_renders_root_and_nested() {
    assert_eq!(CanonPath::root().to_display_string(), "/");
    assert_eq!(path_of("/usr/share").to_display_string(), "/usr/share/");
}

#[test]
fn path_duplicate_and_depth() {
    let p = path_of("/a/b/c");
    let q = p.duplicate();
    assert!(p == q);
    assert_eq!(p.depth(), 3);
    assert!(!p.is_root());
}

#[test]
fn path_child_relation() {
    let parent = path_of("/a");
    let child = path_of("/a/b");
    let deeper = path_of("/a/b/c");
    let other = path_of("/x/b");
    assert!(child.is_child_of(&parent));
    assert!(!deeper.is_child_of(&parent));
    assert!(!other.is_child_of(&parent));
    assert!(!parent.is_child_of(&parent));
    assert_eq!(child.last_name(), "b");
}

use ironscribe::paths::{clean_path, path_starts_with, PathError};

fn b(s: &str) -> Vec<u8> {
    s.as_bytes().to_vec()
}

fn comps(parts: &[&str]) -> Vec<Vec<u8>> {
    parts.iter().map(|s| s.as_bytes().to_vec()).collect()
}

#[test]
fn clean_path_plain_components() {
    assert_eq!(clean_path(&b("a/b/c")).unwrap(), comps(&["a", "b", "c"]));
}

#[test]
fn clean_path_drops_empty_and_dot() {
    assert_eq!(clean_path(&b("./a//b/")).unwrap(), comps(&["a", "b"]));
    assert_eq!(clean_path(&b("/a/./b")).unwrap(), comps(&["a", "b"]));
}

#[test]
fn clean_path_resolves_parent_components() {
    assert_eq!(clean_path(&b("a/b/../c")).unwrap(), comps(&["a", "c"]));
    assert_eq!(clean_path(&b("a/..")).unwrap(), comps(&[]));
}

#[test]
fn clean_path_rejects_traversal_above_root() {
    assert_eq!(clean_path(&b("../x")).unwrap_err(), PathError::Traversal);
    assert_eq!(
        clean_path(&b("a/../../x")).unwrap_err(),
        PathError::Traversal
    );
}

#[test]
fn clean_path_empty_input_is_root() {
    assert_eq!(clean_path(&b("")).unwrap(), comps(&[]));
    assert_eq!(clean_path(&b(".")).unwrap(), comps(&[]));
}

#[test]
fn clean_path_keeps_hidden_names() {
    // "..." and ".hidden" are ordinary names, not traversal
    assert_eq!(
        clean_path(&b(".hidden/...")).unwrap(),
        comps(&[".hidden", "..."])
    );
}

#[test]
fn path_prefix_checks() {
    let ab = comps(&["a", "b"]);
    let abc = comps(&["a", "b", "c"]);
    let ax = comps(&["a", "x"]);
    assert!(path_starts_with(&abc, &ab));
    assert!(path_starts_with(&ab, &ab));
    assert!(!path_starts_with(&ab, &abc));
    assert!(!path_starts_with(&abc, &ax));
}

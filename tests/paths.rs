use ledger::{
    check_new_filename, file_name, guard_create, guard_delete, guard_path, has_parent_traversal,
    is_markdown_file, path_under_root, resolve_under_vault, PathProbe, VaultError, VaultState,
};

fn probe(target: Option<&str>, is_file: bool, parent: Option<&str>) -> PathProbe {
    PathProbe {
        root: "/vault".to_string(),
        target: target.map(|s| s.to_string()),
        target_is_file: is_file,
        parent: parent.map(|s| s.to_string()),
    }
}

#[test]
fn is_markdown_file_accepts_md() {
    assert!(is_markdown_file("file.md"));
}

#[test]
fn is_markdown_file_rejects_txt() {
    assert!(!is_markdown_file("file.txt"));
}

#[test]
fn markdown_extension_edge_cases() {
    assert!(is_markdown_file("a/b/note.md"));
    assert!(is_markdown_file("x.y.md"));
    assert!(!is_markdown_file(".md"));
    assert!(!is_markdown_file("a.MD"));
    assert!(!is_markdown_file("md"));
}

#[test]
fn parent_segments_are_detected() {
    assert!(has_parent_traversal(".."));
    assert!(has_parent_traversal("../other.md"));
    assert!(has_parent_traversal("a/../b.md"));
    assert!(has_parent_traversal("a/.."));
    assert!(!has_parent_traversal("a..b.md"));
    assert!(!has_parent_traversal("a/..b/c.md"));
    assert!(!has_parent_traversal("a/./b.md"));
}

#[test]
fn under_root_goes_by_components() {
    assert!(path_under_root("/vault/foo.md", "/vault"));
    assert!(path_under_root("/vault/a/b/foo.md", "/vault"));
    assert!(path_under_root("/vault", "/vault"));
    assert!(path_under_root("/x", "/"));
    assert!(!path_under_root("/vaultx/foo.md", "/vault"));
    assert!(!path_under_root("/other/foo.md", "/vault"));
    assert!(!path_under_root("", "/vault"));
    assert!(!path_under_root("/vault/a", ""));
}

#[test]
fn traversal_is_rejected_whatever_the_filesystem_says() {
    let p = probe(Some("/vault/x.md"), true, Some("/vault"));
    assert_eq!(guard_path("../x.md", &p), Err(VaultError::InvalidPath));
    assert_eq!(guard_create("a/../x.md", &p), Err(VaultError::InvalidPath));
    assert_eq!(guard_delete("..", &p), Err(VaultError::InvalidPath));
}

#[test]
fn existing_targets_are_accepted_exactly_under_the_root() {
    let inside = probe(Some("/vault/notes/a.md"), true, Some("/vault/notes"));
    assert_eq!(guard_path("notes/a.md", &inside), Ok("/vault/notes/a.md".to_string()));
    let escaped = probe(Some("/elsewhere/a.md"), true, Some("/vault/notes"));
    assert_eq!(guard_path("notes/a.md", &escaped), Err(VaultError::PathEscapesRoot));
}

#[test]
fn missing_targets_resolve_through_their_parent() {
    let p = probe(None, false, Some("/vault/notes"));
    assert_eq!(guard_path("notes/new.md", &p), Ok("/vault/notes/new.md".to_string()));
    let outside = probe(None, false, Some("/tmp"));
    assert_eq!(guard_path("new.md", &outside), Err(VaultError::PathEscapesRoot));
    let nothing = probe(None, false, None);
    assert_eq!(guard_path("a/b/new.md", &nothing), Err(VaultError::ParentNotFound));
}

#[test]
fn create_then_read_and_delete_round_trip() {
    let before = probe(None, false, Some("/vault"));
    let created = guard_create("t.md", &before).unwrap();
    assert_eq!(created, "/vault/t.md");
    let after = probe(Some(&created), true, Some("/vault"));
    assert_eq!(guard_path("t.md", &after), Ok(created.clone()));
    assert_eq!(guard_delete("t.md", &after), Ok(created.clone()));
    assert_eq!(guard_create("t.md", &after), Err(VaultError::AlreadyExists));
}

#[test]
fn delete_needs_a_regular_file() {
    let dir = probe(Some("/vault/sub"), false, Some("/vault"));
    assert_eq!(guard_delete("sub", &dir), Err(VaultError::NotAFile));
    let missing = probe(None, false, Some("/vault"));
    assert_eq!(guard_delete("gone.md", &missing), Err(VaultError::NotAFile));
}

#[test]
fn new_file_names_are_checked() {
    assert_eq!(check_new_filename("new.md"), Ok(()));
    assert_eq!(check_new_filename("sub/new.md"), Ok(()));
    assert_eq!(check_new_filename("../other.md"), Err(VaultError::InvalidPath));
    assert_eq!(check_new_filename("/abs.md"), Err(VaultError::InvalidPath));
    assert_eq!(check_new_filename("note.txt"), Err(VaultError::InvalidPath));
}

#[test]
fn resolving_needs_an_open_vault() {
    let state = VaultState::new();
    let p = probe(None, false, Some("/vault"));
    assert_eq!(resolve_under_vault(&state, "a.md", &p), Err(VaultError::NoVaultOpen));
    assert_eq!(resolve_under_vault(&state, "../a.md", &p), Err(VaultError::InvalidPath));
}

#[test]
fn file_names_are_last_segments() {
    assert_eq!(file_name("/vault/notes/a.md"), "a.md");
    assert_eq!(file_name("a.md"), "a.md");
    assert_eq!(file_name("/vault/"), "");
}

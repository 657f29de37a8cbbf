use ledger::{
    dir_node, file_entry, index_vault, list_files, log_level, markdown_entries, relative_path,
    resolve_under_vault, vault_root, LogLevel, PathProbe, SessionData, VaultError, VaultState,
};

fn strings(v: &[&str]) -> Vec<String> {
    v.iter().map(|s| s.to_string()).collect()
}

#[test]
fn open_vault_returns_root_and_two_md_paths() {
    let found = strings(&["/tmp/ledger_test_vault/b.md", "/tmp/ledger_test_vault/a.md"]);
    let result = index_vault("/tmp/ledger_test_vault", &found);
    assert!(!result.root_path.is_empty());
    assert_eq!(result.file_paths.len(), 2, "expected 2 .md file paths");
    assert!(result.file_paths.contains(&"a.md".to_string()));
    assert!(result.file_paths.contains(&"b.md".to_string()));
}

#[test]
fn index_keeps_markdown_files_sorted() {
    let found = strings(&[
        "/v/b.md",
        "/v/sub/notes.txt",
        "/v/a.md",
        "/v/sub/deep/c.md",
        "/v/readme.MD",
    ]);
    let result = index_vault("/v", &found);
    assert_eq!(result.root_path, "/v");
    assert_eq!(result.file_paths, strings(&["a.md", "b.md", "sub/deep/c.md"]));
}

#[test]
fn created_files_join_the_index_and_deleted_ones_leave_it() {
    let mut state = VaultState::new();
    assert_eq!(vault_root(&state), Err(VaultError::NoVaultOpen));
    let result = index_vault("/v", &strings(&["/v/b.md", "/v/a.md"]));
    state.open(&result);
    assert_eq!(vault_root(&state), Ok("/v".to_string()));
    state.record_created("c.md");
    state.record_created("0.md");
    state.record_created("c.md");
    assert_eq!(list_files(&state), strings(&["0.md", "a.md", "b.md", "c.md"]));
    state.record_deleted("c.md");
    assert_eq!(list_files(&state), strings(&["0.md", "a.md", "b.md"]));
    state.record_deleted("missing.md");
    assert_eq!(list_files(&state), strings(&["0.md", "a.md", "b.md"]));
}

#[test]
fn opening_sorts_and_deduplicates() {
    let mut state = VaultState::new();
    let result = ledger::OpenVaultResult {
        root_path: "/v".to_string(),
        file_paths: strings(&["z.md", "b.md", "z.md", "\u{e9}.md", "B.md"]),
    };
    state.open(&result);
    assert_eq!(state.file_paths(), strings(&["B.md", "b.md", "z.md", "\u{e9}.md"]));
    assert_eq!(state.root_path(), Some("/v".to_string()));
}

#[test]
fn resolving_in_an_open_vault() {
    let mut state = VaultState::new();
    state.open(&index_vault("/vault", &Vec::new()));
    let p = PathProbe {
        root: "/vault".to_string(),
        target: Some("/vault/a.md".to_string()),
        target_is_file: true,
        parent: Some("/vault".to_string()),
    };
    assert_eq!(resolve_under_vault(&state, "a.md", &p), Ok("/vault/a.md".to_string()));
}

#[test]
fn relative_paths_strip_the_root() {
    assert_eq!(relative_path("/v/a/b.md", "/v"), "a/b.md");
    assert_eq!(relative_path("/v/a.md", "/v/"), "a.md");
    assert_eq!(relative_path("/v", "/v"), "");
    assert_eq!(relative_path("/w/a.md", "/v"), "/w/a.md");
    assert_eq!(relative_path("/vx/a.md", "/v"), "/vx/a.md");
}

#[test]
fn folder_listing_keeps_markdown_files() {
    let entries = markdown_entries(&strings(&["/r/foo.md", "/r/other.txt", "/r/bar.md"]));
    assert_eq!(entries.len(), 2);
    assert_eq!(entries[0].name, "foo.md");
    assert_eq!(entries[0].path, "/r/foo.md");
    assert_eq!(entries[1].name, "bar.md");
    let e = file_entry("/r/x.md".to_string());
    assert_eq!(e.name, "x.md");
    let leaf = dir_node("/r/b/c".to_string(), Vec::new());
    let b = dir_node("/r/b".to_string(), vec![leaf]);
    assert_eq!(b.name, "b");
    assert_eq!(b.children.len(), 1);
    assert_eq!(b.children[0].name, "c");
}

#[test]
fn session_merge_replaces_only_given_fields() {
    let stored = SessionData {
        last_vault_path: Some("/old".to_string()),
        last_file_path: Some("a.md".to_string()),
        theme: Some("dark".to_string()),
    };
    let merged = stored.merge(Some("/new".to_string()), None, None);
    assert_eq!(merged.last_vault_path, Some("/new".to_string()));
    assert_eq!(merged.last_file_path, Some("a.md".to_string()));
    assert_eq!(merged.theme, Some("dark".to_string()));
    let fresh = SessionData::default().merge(None, None, Some("light".to_string()));
    assert_eq!(fresh.last_vault_path, None);
    assert_eq!(fresh.theme, Some("light".to_string()));
}

#[test]
fn log_levels_ignore_case() {
    assert_eq!(log_level("ERROR"), LogLevel::Error);
    assert_eq!(log_level("Warning"), LogLevel::Warn);
    assert_eq!(log_level("warn"), LogLevel::Warn);
    assert_eq!(log_level("DeBuG"), LogLevel::Debug);
    assert_eq!(log_level("trace"), LogLevel::Trace);
    assert_eq!(log_level("info"), LogLevel::Info);
    assert_eq!(log_level("loud"), LogLevel::Info);
}

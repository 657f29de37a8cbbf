use ledger::{
    is_descendant, parent_path, parse_list_items, parse_scope, query_by_tag, query_nodes,
    LoadedFile,
};

fn file(path: &str, content: &str) -> LoadedFile {
    LoadedFile { path: path.to_string(), content: Some(content.to_string()) }
}

fn tags(names: &[&str]) -> Vec<String> {
    names.iter().map(|s| s.to_string()).collect()
}

#[test]
fn query_by_tag_finds_items_with_tag() {
    let files = vec![
        file("f1.md", "- Item 1 #decision\n- Item 2"),
        file("f2.md", "- Task A #decision\n- Task B"),
    ];
    let r = query_by_tag(&tags(&["decision"]), None, &files);
    assert_eq!(r.len(), 2);
    assert_eq!(r[0].file_path, "f1.md");
    assert_eq!(r[0].node.text, "Item 1 #decision");
    assert_eq!(r[0].parent_path, None);
    assert_eq!(r[0].node.tags, vec!["decision".to_string()]);
    assert_eq!(r[1].file_path, "f2.md");
    assert_eq!(r[1].node.text, "Task A #decision");
    assert_eq!(r[1].parent_path, None);
}

#[test]
fn query_by_tag_scope_filter() {
    let files = vec![file(
        "project.md",
        "- Project A\n  - Task 1 #task\n  - Task 2\n- Project B\n  - Task 3 #task",
    )];
    let r = query_by_tag(&tags(&["task"]), Some(0), &files);
    assert_eq!(r.len(), 1);
    assert_eq!(r[0].node.text, "Task 1 #task");
    assert_eq!(r[0].parent_path, Some("Project A".to_string()));
    let all = query_by_tag(&tags(&["task"]), None, &files);
    assert_eq!(all.len(), 2);
    assert_eq!(all[1].node.text, "Task 3 #task");
    assert_eq!(all[1].parent_path, Some("Project B".to_string()));
}

#[test]
fn scope_includes_the_scope_node_itself() {
    let files = vec![file("p.md", "- Top #t\n  - Child #t\n- Other #t")];
    let r = query_by_tag(&tags(&["t"]), Some(0), &files);
    let texts: Vec<&str> = r.iter().map(|m| m.node.text.as_str()).collect();
    assert_eq!(texts, vec!["Top #t", "Child #t"]);
}

#[test]
fn breadcrumb_joins_ancestors_root_first() {
    let files = vec![file("deep.md", "- a\n  - b\n    - c #x")];
    let r = query_by_tag(&tags(&["x"]), None, &files);
    assert_eq!(r.len(), 1);
    assert_eq!(r[0].parent_path, Some("a > b".to_string()));
}

#[test]
fn unreadable_files_are_skipped() {
    let files = vec![
        LoadedFile { path: "gone.md".to_string(), content: None },
        file("here.md", "- x #t"),
    ];
    let r = query_by_tag(&tags(&["t"]), None, &files);
    assert_eq!(r.len(), 1);
    assert_eq!(r[0].file_path, "here.md");
}

#[test]
fn any_of_several_tags_matches() {
    let files = vec![file("f.md", "- one #a\n- two #b\n- three #c")];
    let r = query_by_tag(&tags(&["c", "a"]), None, &files);
    let texts: Vec<&str> = r.iter().map(|m| m.node.text.as_str()).collect();
    assert_eq!(texts, vec!["one #a", "three #c"]);
    assert!(query_by_tag(&Vec::new(), None, &files).is_empty());
}

#[test]
fn descendant_and_breadcrumb_helpers() {
    let nodes = parse_list_items("- a\n  - b\n    - c\n- d");
    assert!(is_descendant(&nodes, 2, 0));
    assert!(is_descendant(&nodes, 2, 1));
    assert!(!is_descendant(&nodes, 0, 0));
    assert!(!is_descendant(&nodes, 3, 0));
    assert!(!is_descendant(&nodes, 9, 0));
    assert_eq!(parent_path(&nodes, &nodes[2]), Some("a > b".to_string()));
    assert_eq!(parent_path(&nodes, &nodes[0]), None);
}

#[test]
fn query_nodes_on_one_forest() {
    let nodes = parse_list_items("- a #t\n  - b #t\n- c #t");
    let r = query_nodes("x.md", &nodes, &tags(&["t"]), Some(1));
    assert_eq!(r.len(), 1);
    assert_eq!(r[0].node.id, 1);
    assert_eq!(r[0].file_path, "x.md");
}

#[test]
fn scope_ids_parse_as_unsigned_numbers() {
    assert_eq!(parse_scope("0"), Some(0));
    assert_eq!(parse_scope("42"), Some(42));
    assert_eq!(parse_scope("+7"), Some(7));
    assert_eq!(parse_scope(""), None);
    assert_eq!(parse_scope("+"), None);
    assert_eq!(parse_scope("-1"), None);
    assert_eq!(parse_scope("1a"), None);
    assert_eq!(parse_scope("18446744073709551615"), Some(usize::MAX));
    assert_eq!(parse_scope("18446744073709551616"), None);
}

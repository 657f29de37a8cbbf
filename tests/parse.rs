use ledger::{build_forest, parse_file, parse_list_items, MdEvent, TreeNode};

#[test]
fn parse_two_root_one_child() {
    // Nested list: first item contains a sublist
    let content = "- a\n  - b";
    let nodes = parse_list_items(content);
    assert_eq!(nodes.len(), 2, "expected 2 nodes");
    assert_eq!(nodes[0].depth, 0);
    assert_eq!(nodes[0].parent_id, None);
    assert!(nodes[0].text.contains("a"));
    assert_eq!(nodes[1].depth, 1);
    assert_eq!(nodes[1].parent_id, Some(0));
    assert!(nodes[1].text.contains("b"));
    assert_eq!(nodes[0].children_ids, vec![1]);
}

#[test]
fn parse_tags_decision_ci() {
    let content = "- Do it #decision #ci";
    let nodes = parse_list_items(content);
    assert_eq!(nodes.len(), 1);
    assert!(nodes[0].tags.contains(&"decision".to_string()));
    assert!(nodes[0].tags.contains(&"ci".to_string()));
}

#[test]
fn debug_parse() {
    let content = "- a\n  - b";
    let nodes = parse_list_items(content);
    println!("Number of nodes: {}", nodes.len());
    for node in &nodes {
        println!(
            "Node: id={}, depth={}, text='{}', parent_id={:?}, children={:?}",
            node.id, node.depth, node.text, node.parent_id, node.children_ids
        );
    }
}

#[test]
fn tags_keep_order_of_appearance() {
    let nodes = parse_list_items("- Do it #decision #ci");
    assert_eq!(nodes[0].tags, vec!["decision".to_string(), "ci".to_string()]);
    assert_eq!(nodes[0].text, "Do it #decision #ci");
}

#[test]
fn duplicate_tags_are_kept() {
    let nodes = parse_list_items("- x #a-b #a-b #c_d");
    assert_eq!(
        nodes[0].tags,
        vec!["a-b".to_string(), "a-b".to_string(), "c_d".to_string()]
    );
}

#[test]
fn blank_items_consume_no_id() {
    let nodes = parse_list_items("- a\n- \n- b");
    assert_eq!(nodes.len(), 2);
    assert_eq!(nodes[0].id, 0);
    assert_eq!(nodes[0].text, "a");
    assert_eq!(nodes[1].id, 1);
    assert_eq!(nodes[1].text, "b");
}

#[test]
fn parsing_twice_gives_the_same_forest() {
    let content = "- Project A\n  - Task 1 #task\n  - Task 2\n- Project B\n  - Task 3 #task";
    let first = parse_list_items(content);
    let second = parse_list_items(content);
    assert_eq!(first, second);
    assert_eq!(first.len(), 5);
}

#[test]
fn forest_links_and_depths() {
    let content = "- Project A\n  - Task 1 #task\n  - Task 2\n- Project B\n  - Task 3 #task";
    let nodes = parse_list_items(content);
    let texts: Vec<&str> = nodes.iter().map(|n| n.text.as_str()).collect();
    assert_eq!(texts, vec!["Project A", "Task 1 #task", "Task 2", "Project B", "Task 3 #task"]);
    assert_eq!(nodes[0].children_ids, vec![1, 2]);
    assert_eq!(nodes[3].children_ids, vec![4]);
    assert_eq!(nodes[4].parent_id, Some(3));
    assert_eq!(nodes[4].depth, 1);
    assert_eq!(nodes[3].depth, 0);
}

#[test]
fn three_levels_of_nesting() {
    let nodes = parse_list_items("- a\n  - b\n    - c");
    assert_eq!(nodes.len(), 3);
    assert_eq!(nodes[2].depth, 2);
    assert_eq!(nodes[2].parent_id, Some(1));
    assert_eq!(nodes[1].children_ids, vec![2]);
}

#[test]
fn text_outside_lists_yields_no_nodes() {
    assert!(parse_list_items("# Title\n\nJust a paragraph with #tag").is_empty());
    assert!(parse_list_items("").is_empty());
}

#[test]
fn soft_break_becomes_a_space() {
    let nodes = parse_list_items("- first\n  second");
    assert_eq!(nodes.len(), 1);
    assert_eq!(nodes[0].text, "first second");
}

#[test]
fn ordered_lists_count_as_lists() {
    let nodes = parse_list_items("1. one #x\n2. two");
    assert_eq!(nodes.len(), 2);
    assert_eq!(nodes[0].tags, vec!["x".to_string()]);
}

#[test]
fn parse_file_returns_the_forest() {
    let r = parse_file("notes.md", "- a\n  - b");
    assert_eq!(r.nodes, parse_list_items("- a\n  - b"));
}

#[test]
fn forest_from_events_trims_and_links() {
    let events = vec![
        MdEvent::ListStart,
        MdEvent::ItemStart,
        MdEvent::Text("  top ".to_string()),
        MdEvent::ListStart,
        MdEvent::ItemStart,
        MdEvent::Text("inner".to_string()),
        MdEvent::HardBreak,
        MdEvent::Text("line".to_string()),
        MdEvent::ItemEnd,
        MdEvent::ListEnd,
        MdEvent::ItemEnd,
        MdEvent::ItemStart,
        MdEvent::Text("   ".to_string()),
        MdEvent::ItemEnd,
        MdEvent::ListEnd,
    ];
    let nodes: Vec<TreeNode> = build_forest(&events);
    assert_eq!(nodes.len(), 2);
    assert_eq!(nodes[0].text, "top");
    assert_eq!(nodes[1].text, "inner\nline");
    assert_eq!(nodes[1].parent_id, Some(0));
    assert_eq!(nodes[0].children_ids, vec![1]);
}

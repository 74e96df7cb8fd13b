use json_explorer::JsonExplorer;

fn segs(parts: &[&str]) -> Vec<String> {
    parts.iter().map(|s| s.to_string()).collect()
}

#[test]
fn collapsed_root_is_a_single_row() {
    let mut ex = JsonExplorer::new();
    ex.load_from_str("{\"a\": 1, \"b\": [true]}", "t.json".to_string()).unwrap();
    let rows = ex.render_tree_rows();
    assert_eq!(rows.len(), 1);
    assert_eq!(rows[0].path, Vec::<String>::new());
    assert_eq!(rows[0].label, "\u{25B6} Root");
    assert!(rows[0].is_container);
}

#[test]
fn expanded_root_shows_children_in_order() {
    let mut ex = JsonExplorer::new();
    ex.load_from_str("{\"a\": 1, \"b\": [true]}", "t.json".to_string()).unwrap();
    ex.toggle_expansion(&segs(&[]));
    let rows = ex.render_tree_rows();
    assert_eq!(rows.len(), 3);
    assert_eq!(rows[0].label, "\u{25BC} Root");
    assert_eq!(rows[1].path, segs(&["a"]));
    assert_eq!(rows[1].label, "  a");
    assert!(!rows[1].is_container);
    assert_eq!(rows[2].path, segs(&["b"]));
    assert_eq!(rows[2].label, "\u{25B6} b");
    assert!(rows[2].is_container);
}

#[test]
fn array_children_are_labeled_by_index() {
    let mut ex = JsonExplorer::new();
    ex.load_from_str("[10, 20]", "t.json".to_string()).unwrap();
    ex.toggle_expansion(&segs(&[]));
    ex.set_show_node_values(true);
    let rows = ex.render_tree_rows();
    assert_eq!(rows.len(), 3);
    assert_eq!(rows[1].path, segs(&["0"]));
    assert_eq!(rows[1].label, "  [0] 10");
    assert_eq!(rows[2].path, segs(&["1"]));
    assert_eq!(rows[2].label, "  [1] 20");
}

#[test]
fn show_node_types_annotates_rows() {
    let mut ex = JsonExplorer::new();
    ex.load_from_str("{\"a\": 1, \"b\": [true]}", "t.json".to_string()).unwrap();
    ex.toggle_expansion(&segs(&[]));
    ex.set_show_node_types(true);
    let rows = ex.render_tree_rows();
    assert_eq!(rows[0].label, "\u{25BC} Root (object, 2 items)");
    assert_eq!(rows[1].label, "  a (number)");
    assert_eq!(rows[2].label, "\u{25B6} b (array, 1 items)");
}

#[test]
fn toggling_options_changes_only_labels() {
    let mut ex = JsonExplorer::new();
    ex.load_from_str("{\"a\": 1, \"b\": [true]}", "t.json".to_string()).unwrap();
    ex.navigate_to_path(segs(&[]));
    ex.toggle_expansion(&segs(&[]));
    let before = ex.render_tree_rows();
    let nav_before = ex.navigation_path.clone();
    ex.set_show_node_types(true);
    ex.set_show_node_values(true);
    let after = ex.render_tree_rows();
    assert_eq!(ex.navigation_path, nav_before);
    assert!(ex.is_expanded(&segs(&[])));
    assert_eq!(before.len(), after.len());
    for (b, a) in before.iter().zip(after.iter()) {
        assert_eq!(b.path, a.path);
        assert_eq!(b.is_container, a.is_container);
    }
}

#[test]
fn long_string_value_is_truncated_with_ellipsis() {
    let long = "a".repeat(60);
    let doc = format!("{{\"s\": \"{}\"}}", long);
    let mut ex = JsonExplorer::new();
    ex.load_from_str(&doc, "t.json".to_string()).unwrap();
    ex.toggle_expansion(&segs(&[]));
    ex.set_show_node_values(true);
    let rows = ex.render_tree_rows();
    let expected = format!("  s \"{}...", "a".repeat(49));
    assert_eq!(rows[1].label, expected);
}

#[test]
fn short_string_value_renders_in_full() {
    let short = "a".repeat(40);
    let doc = format!("{{\"s\": \"{}\"}}", short);
    let mut ex = JsonExplorer::new();
    ex.load_from_str(&doc, "t.json".to_string()).unwrap();
    ex.toggle_expansion(&segs(&[]));
    ex.set_show_node_values(true);
    let rows = ex.render_tree_rows();
    let expected = format!("  s \"{}\"", short);
    assert_eq!(rows[1].label, expected);
}

#[test]
fn nested_expansion_reveals_grandchildren() {
    let mut ex = JsonExplorer::new();
    ex.load_from_str("{\"b\": [true]}", "t.json".to_string()).unwrap();
    ex.toggle_expansion(&segs(&[]));
    ex.toggle_expansion(&segs(&["b"]));
    let rows = ex.render_tree_rows();
    assert_eq!(rows.len(), 3);
    assert_eq!(rows[2].path, segs(&["b", "0"]));
    assert_eq!(rows[2].label, "  [0]");
}

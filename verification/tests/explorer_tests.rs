use json_explorer::value::JsonValue;
use json_explorer::JsonExplorer;

fn sample_doc() -> &'static str {
    "{\"a\": [1, 2, {\"b\": \"x\"}]}"
}

fn segs(parts: &[&str]) -> Vec<String> {
    parts.iter().map(|s| s.to_string()).collect()
}

#[test]
fn navigate_into_nested_scalar() {
    let mut ex = JsonExplorer::new();
    ex.load_from_str(sample_doc(), "sample.json".to_string()).unwrap();
    ex.navigate_to_path(segs(&["a", "2", "b"]));
    assert_eq!(ex.navigation_path, segs(&["a", "2", "b"]));
    assert_eq!(ex.current_data, Some(JsonValue::Str("x".to_string())));
    assert_eq!(ex.selected_json, "\"x\"");
}

#[test]
fn navigate_out_of_bounds_truncates_to_prefix() {
    let mut ex = JsonExplorer::new();
    ex.load_from_str(sample_doc(), "sample.json".to_string()).unwrap();
    ex.navigate_to_path(segs(&["a", "9"]));
    assert_eq!(ex.navigation_path, segs(&["a"]));
    match &ex.current_data {
        Some(JsonValue::Arr(items)) => assert_eq!(items.len(), 3),
        other => panic!("expected the array, got {:?}", other),
    }
}

#[test]
fn navigate_bad_key_truncates_at_root() {
    let mut ex = JsonExplorer::new();
    ex.load_from_str(sample_doc(), "sample.json".to_string()).unwrap();
    ex.navigate_to_path(segs(&["nope", "2"]));
    assert_eq!(ex.navigation_path, Vec::<String>::new());
}

#[test]
fn navigate_twice_is_idempotent() {
    let mut ex = JsonExplorer::new();
    ex.load_from_str(sample_doc(), "sample.json".to_string()).unwrap();
    ex.navigate_to_path(segs(&["a", "2"]));
    let current1 = format!("{:?}", ex.current_data);
    let selected1 = ex.selected_json.clone();
    ex.navigate_to_path(segs(&["a", "2"]));
    assert_eq!(format!("{:?}", ex.current_data), current1);
    assert_eq!(ex.selected_json, selected1);
}

#[test]
fn go_back_matches_navigating_to_parent() {
    let mut ex1 = JsonExplorer::new();
    ex1.load_from_str(sample_doc(), "sample.json".to_string()).unwrap();
    ex1.navigate_to_path(segs(&["a", "2", "b"]));
    ex1.go_back();

    let mut ex2 = JsonExplorer::new();
    ex2.load_from_str(sample_doc(), "sample.json".to_string()).unwrap();
    ex2.navigate_to_path(segs(&["a", "2"]));

    assert_eq!(ex1.navigation_path, ex2.navigation_path);
    assert_eq!(ex1.current_data, ex2.current_data);
    assert_eq!(ex1.selected_json, ex2.selected_json);
}

#[test]
fn go_back_at_root_does_nothing() {
    let mut ex = JsonExplorer::new();
    ex.load_from_str(sample_doc(), "sample.json".to_string()).unwrap();
    ex.go_back();
    assert_eq!(ex.navigation_path, Vec::<String>::new());
    assert!(ex.current_data.is_some());
}

#[test]
fn failed_load_leaves_state_untouched() {
    let mut ex = JsonExplorer::new();
    ex.load_from_str(sample_doc(), "sample.json".to_string()).unwrap();
    ex.navigate_to_path(segs(&["a"]));
    ex.toggle_expansion(&segs(&["a"]));
    let root_before = format!("{:?}", ex.root_data);
    let nav_before = ex.navigation_path.clone();
    let exp_before = format!("{:?}", ex.expanded_nodes);
    let sel_before = ex.selected_json.clone();
    let file_before = ex.current_file_name.clone();

    let r = ex.load_from_str("{\"a\": [1, 2,", "broken.json".to_string());
    assert!(r.is_err());
    assert_eq!(format!("{:?}", ex.root_data), root_before);
    assert_eq!(ex.navigation_path, nav_before);
    assert_eq!(format!("{:?}", ex.expanded_nodes), exp_before);
    assert_eq!(ex.selected_json, sel_before);
    assert_eq!(ex.current_file_name, file_before);
}

#[test]
fn successful_load_resets_navigation_and_expansion() {
    let mut ex = JsonExplorer::new();
    ex.load_from_str(sample_doc(), "sample.json".to_string()).unwrap();
    ex.navigate_to_path(segs(&["a"]));
    ex.toggle_expansion(&segs(&["a"]));
    ex.load_from_str("[true, null]", "other.json".to_string()).unwrap();
    assert_eq!(ex.navigation_path, Vec::<String>::new());
    assert!(ex.expanded_nodes.is_empty());
    assert_eq!(ex.current_file_name, Some("other.json".to_string()));
    assert!(!ex.is_expanded(&segs(&["a"])));
}

#[test]
fn path_string_breadcrumb() {
    let mut ex = JsonExplorer::new();
    assert_eq!(ex.get_current_path_string(), "Root");
    ex.load_from_str(sample_doc(), "sample.json".to_string()).unwrap();
    ex.navigate_to_path(segs(&["a", "2"]));
    assert_eq!(ex.get_current_path_string(), "a \u{2192} 2");
}

#[test]
fn toggle_expansion_flips_one_node_only() {
    let mut ex = JsonExplorer::new();
    ex.load_from_str(sample_doc(), "sample.json".to_string()).unwrap();
    let a = segs(&["a"]);
    let other = segs(&["a", "2"]);
    assert!(!ex.is_expanded(&a));
    ex.toggle_expansion(&a);
    assert!(ex.is_expanded(&a));
    assert!(!ex.is_expanded(&other));
    ex.toggle_expansion(&a);
    assert!(!ex.is_expanded(&a));
}

#[test]
fn navigate_with_oversized_index_truncates() {
    let mut ex = JsonExplorer::new();
    ex.load_from_str(sample_doc(), "sample.json".to_string()).unwrap();
    ex.navigate_to_path(segs(&["a", "99999999999999999999999999"]));
    assert_eq!(ex.navigation_path, segs(&["a"]));
}

#[test]
fn object_lookup_takes_first_of_duplicate_keys() {
    let mut ex = JsonExplorer::new();
    ex.load_from_str("{\"k\": 1, \"k\": 2}", "dup.json".to_string()).unwrap();
    ex.navigate_to_path(segs(&["k"]));
    assert_eq!(ex.current_data, Some(JsonValue::Num("1".to_string())));
}

#[test]
fn navigation_clears_expansion_state() {
    let mut ex = JsonExplorer::new();
    ex.load_from_str(sample_doc(), "sample.json".to_string()).unwrap();
    ex.toggle_expansion(&segs(&[]));
    ex.toggle_expansion(&segs(&["a"]));
    ex.navigate_to_path(segs(&["a"]));
    assert!(ex.expanded_nodes.is_empty());
    assert!(!ex.is_expanded(&segs(&[])));
}

#[test]
fn selecting_a_scalar_changes_only_the_text_pane() {
    let mut ex = JsonExplorer::new();
    ex.load_from_str(sample_doc(), "sample.json".to_string()).unwrap();
    ex.navigate_to_path(segs(&["a"]));
    let nav_before = ex.navigation_path.clone();
    let current_before = format!("{:?}", ex.current_data);
    ex.select_scalar(&JsonValue::Str("x".to_string()));
    assert_eq!(ex.selected_json, "\"x\"");
    assert_eq!(ex.navigation_path, nav_before);
    assert_eq!(format!("{:?}", ex.current_data), current_before);
    ex.update_selected_json();
    assert_ne!(ex.selected_json, "\"x\"");
}

#[test]
fn update_selected_json_regenerates_from_current() {
    let mut ex = JsonExplorer::new();
    ex.load_from_str("[1]", "one.json".to_string()).unwrap();
    ex.selected_json = "scribble".to_string();
    ex.update_selected_json();
    assert_eq!(ex.selected_json, "[\n  1\n]");
}

use openmoonvy_mcp_rs::diff::diff_trees;
use openmoonvy_mcp_rs::tree::{NodeStyle, TreeNode};

fn tn(id: &str, name: &str, node_type: &str) -> TreeNode {
    TreeNode { id: id.into(), name: name.into(), node_type: node_type.into(), ..Default::default() }
}

#[test]
fn diff_added_removed_changed() {
    let a = vec![
        TreeNode { width: 10, height: 10, text: Some("same".into()), ..tn("1", "A", "frame") },
        TreeNode { width: 10, height: 10, ..tn("3", "C", "frame") },
    ];
    let b = vec![
        TreeNode { width: 10, height: 10, text: Some("changed".into()), ..tn("1", "A", "frame") },
        TreeNode { width: 10, height: 10, ..tn("4", "D", "frame") },
    ];
    let diff = diff_trees(&a, &b);
    assert_eq!(diff.removed.len(), 1);
    assert_eq!(diff.removed[0].id, "3");
    assert_eq!(diff.added.len(), 1);
    assert_eq!(diff.added[0].id, "4");
    assert_eq!(diff.changed.len(), 1);
    assert_eq!(diff.changed[0].id, "1");
    assert_eq!(diff.changed[0].fields, vec!["text"]);
    assert_eq!(diff.changed[0].before.as_ref().map(|n| n.text.as_deref()), Some(Some("same")));
    assert_eq!(diff.changed[0].after.as_ref().map(|n| n.text.as_deref()), Some(Some("changed")));
}

#[test]
fn diff_name_fallback_matches_same_name_nodes() {
    let a = vec![
        TreeNode { text: Some("old".into()), ..tn("1", "Avatar", "frame") },
        TreeNode { text: Some("Hello".into()), ..tn("2", "Title", "text") },
    ];
    let b = vec![
        TreeNode { text: Some("new".into()), ..tn("999", "Avatar", "frame") },
        TreeNode { text: Some("Hello".into()), ..tn("2", "Title", "text") },
    ];
    let diff = diff_trees(&a, &b);
    assert_eq!(diff.added.len(), 0, "id mismatch paired by name");
    assert_eq!(diff.removed.len(), 0);
    assert_eq!(diff.changed.len(), 1);
    assert_eq!(diff.changed[0].id, "999");
    assert_eq!(diff.changed[0].fields, vec!["text"]);
    assert_eq!(diff.changed[0].before.as_ref().map(|n| n.id.as_str()), Some("1"));
    assert_eq!(diff.changed[0].after.as_ref().map(|n| n.id.as_str()), Some("999"));
}

#[test]
fn diff_name_fallback_keeps_true_adds() {
    let a = vec![tn("1", "Avatar", "frame")];
    let b = vec![tn("1", "Avatar", "frame"), tn("777", "Badge", "frame")];
    let diff = diff_trees(&a, &b);
    assert_eq!(diff.added.len(), 1);
    assert_eq!(diff.added[0].id, "777");
    assert!(diff.changed.is_empty());
    assert!(diff.removed.is_empty());
}

fn icon(id: &str, x: i64, y: i64) -> TreeNode {
    TreeNode { x, y, width: 24, height: 24, ..tn(id, "Icon", "layer") }
}

#[test]
fn diff_name_fallback_pairs_nearest_geometry_not_arbitrary() {
    let a = vec![icon("a1", 0, 0), icon("a2", 100, 0), icon("a3", 0, 100)];
    let b = vec![icon("b1", 0, 0), icon("b2", 100, 0), icon("b3", 0, 100)];
    let diff = diff_trees(&a, &b);
    assert_eq!(diff.added.len(), 0, "all same-name nodes must pair by position");
    assert_eq!(diff.removed.len(), 0);
    assert!(diff.changed.is_empty(), "identical positions must not report rect changes");

    let b_moved = vec![icon("b1", 0, 0), icon("b2", 100, 0), icon("b3", 5, 5)];
    let diff = diff_trees(&a, &b_moved);
    assert_eq!(diff.changed.len(), 1);
    assert_eq!(diff.changed[0].id, "b3");
    assert_eq!(diff.changed[0].fields, vec!["rect"]);
}

#[test]
fn diff_same_name_different_type_not_paired() {
    let a = vec![tn("a1", "Badge", "layer")];
    let b = vec![tn("b1", "Badge", "text")];
    let diff = diff_trees(&a, &b);
    assert_eq!(diff.added.len(), 1, "type mismatch must not pair by name");
    assert_eq!(diff.added[0].id, "b1");
    assert_eq!(diff.removed.len(), 1);
    assert_eq!(diff.removed[0].id, "a1");
    assert!(diff.changed.is_empty());
}

fn page(id: &str, name: &str, child_id: &str) -> TreeNode {
    TreeNode {
        width: 1440,
        height: 900,
        children: Some(vec![tn(child_id, "内容", "layer")]),
        ..tn(id, name, "artboard")
    }
}

#[test]
fn diff_single_page_root_wrapper_not_reported() {
    let a = vec![page("page-a", "首页 - 个人资料", "child-a")];
    let b = vec![page("page-b", "首页 - 个人资料（hover）", "child-b")];
    let diff = diff_trees(&a, &b);
    assert!(diff.added.iter().all(|n| n.name != "首页 - 个人资料（hover）"), "page wrapper must not be reported as added");
    assert!(diff.removed.iter().all(|n| n.name != "首页 - 个人资料"), "page wrapper must not be reported as removed");
    assert!(diff.added.is_empty(), "same-name child must pair, got {:?}", diff.added);
    assert!(diff.removed.is_empty());
    assert!(diff.changed.is_empty());
}

#[test]
fn diff_of_a_tree_with_itself_is_empty() {
    let a = vec![page("p", "Page", "c"), icon("i1", 1, 2)];
    let b = vec![page("p", "Page", "c"), icon("i1", 1, 2)];
    let diff = diff_trees(&a, &b);
    assert!(diff.added.is_empty() && diff.removed.is_empty() && diff.changed.is_empty());
}

#[test]
fn diff_reports_every_changed_field_in_order() {
    let a = vec![TreeNode { text: Some("x".into()), children: Some(vec![]), ..tn("1", "A", "frame") }];
    let b = vec![TreeNode { text: Some("y".into()), x: 3, children: Some(vec![tn("2", "B", "frame")]), ..tn("1", "A", "frame") }];
    let diff = diff_trees(&a, &b);
    assert_eq!(diff.changed.len(), 1);
    assert_eq!(diff.changed[0].fields, vec!["text", "childrenCount", "rect"]);
    // the child is new
    assert_eq!(diff.added.len(), 1);
    assert_eq!(diff.added[0].id, "2");
}

#[test]
fn diff_added_and_removed_nodes_lose_their_children() {
    let a = vec![TreeNode { children: Some(vec![tn("k", "Kid", "layer")]), ..tn("1", "Old", "layer") }];
    let b = vec![tn("2", "New", "layer")];
    let diff = diff_trees(&a, &b);
    let removed: Vec<&str> = {
        let mut v: Vec<&str> = diff.removed.iter().map(|n| n.id.as_str()).collect();
        v.sort();
        v
    };
    assert_eq!(removed, vec!["1", "k"]);
    assert!(diff.removed.iter().all(|n| n.children.is_none()));
    assert_eq!(diff.added.len(), 1);
}

fn styled(font_size_bits: u64) -> TreeNode {
    TreeNode {
        style: Some(NodeStyle { font_size: Some(font_size_bits), ..Default::default() }),
        ..tn("1", "A", "text")
    }
}

#[test]
fn diff_style_numbers_compare_as_printed() {
    // Every NaN prints as `NaN`: two NaNs are no style change.
    let quiet = f64::NAN.to_bits();
    let other_nan = 0xfff8_0000_0000_0001u64;
    assert!(f64::from_bits(other_nan).is_nan());
    let diff = diff_trees(&vec![styled(quiet)], &vec![styled(other_nan)]);
    assert!(diff.changed.is_empty());
    // Different numbers print differently.
    let diff = diff_trees(&vec![styled(12f64.to_bits())], &vec![styled(14f64.to_bits())]);
    assert_eq!(diff.changed[0].fields, vec!["style"]);
    // 0.0 and -0.0 print differently too.
    let diff = diff_trees(&vec![styled(0f64.to_bits())], &vec![styled((-0f64).to_bits())]);
    assert_eq!(diff.changed[0].fields, vec!["style"]);
}

use openmoonvy_mcp_rs::server::{
    default_limit_20, default_limit_50, default_limit_500, default_max_depth, default_max_pages_50, default_timeout_300000,
    default_true, workspaces_from,
};

#[test]
fn workspaces_are_split_trimmed_sorted_and_unique() {
    let values = vec![" /b ; /a|/c".to_string(), "/a;;  ".to_string(), "".to_string()];
    assert_eq!(workspaces_from(&values), vec!["/a".to_string(), "/b".to_string(), "/c".to_string()]);
    assert!(workspaces_from(&Vec::new()).is_empty());
}

#[test]
fn tool_defaults() {
    assert_eq!(default_max_depth(), 99);
    assert_eq!(default_limit_500(), 500);
    assert_eq!(default_max_pages_50(), 50);
    assert_eq!(default_limit_50(), 50);
    assert_eq!(default_limit_20(), 20);
    assert!(default_true());
    assert_eq!(default_timeout_300000(), 300_000);
}

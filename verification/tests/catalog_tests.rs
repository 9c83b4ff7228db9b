use openmoonvy_mcp_rs::catalog::{
    design_summary, resolve_workspace_dir, search_catalog, workspace_verdict, Catalog, CatalogDesign, WorkspaceError,
};
use openmoonvy_mcp_rs::json::Json;

fn design(id: &str, name: &str, tags: &[&str]) -> CatalogDesign {
    CatalogDesign {
        id: id.to_string(),
        name: name.to_string(),
        design_type: "design".to_string(),
        url: format!("https://moonvy.com/project/{id}"),
        project_id: String::new(),
        parent_id: String::new(),
        aliases: vec![],
        tags: tags.iter().map(|t| t.to_string()).collect(),
        last_synced_at: String::new(),
        width: None,
        height: None,
    }
}

fn sample_catalog() -> Catalog {
    Catalog {
        version: 1,
        updated_at: None,
        sources: vec![],
        designs: vec![design("1", "Home", &[]), design("2", "Login", &[]), design("3", "Dashboard", &["overview"])],
    }
}

#[test]
fn search_exact_and_missing() {
    let catalog = sample_catalog();
    let aliases: Vec<(String, Json)> = Vec::new();

    let exact = search_catalog(&catalog, &aliases, "Home");
    assert_eq!(exact.len(), 1);
    assert_eq!(exact[0].match_reason, "exact");
    assert_eq!(exact[0].score, 100);

    let missing = search_catalog(&catalog, &aliases, "nope");
    assert!(missing.is_empty());
}

#[test]
fn search_via_aliases() {
    let catalog = sample_catalog();
    let aliases: Vec<(String, Json)> = vec![("home.vue".to_string(), Json::String("Home".to_string()))];
    let matches = search_catalog(&catalog, &aliases, "home.vue");
    assert_eq!(matches.len(), 1);
    assert_eq!(matches[0].match_reason, "alias-map");
    assert_eq!(matches[0].score, 80);
}

#[test]
fn search_ranking_exact_over_contains() {
    let mut c = sample_catalog();
    let aliases: Vec<(String, Json)> = Vec::new();
    c.designs[2].name = "Home Dashboard".to_string();
    let matches = search_catalog(&c, &aliases, "Home");
    assert_eq!(matches[0].score, 100, "exact match ranks first");
    assert_eq!(matches[0].match_reason, "exact");
}

#[test]
fn search_ties_order_by_name_then_catalog_order() {
    let c = Catalog {
        version: 1,
        updated_at: None,
        sources: vec![],
        designs: vec![design("1", "Profile B", &[]), design("2", "Profile A", &[]), design("3", "Profile A", &["x"])],
    };
    let matches = search_catalog(&c, &Vec::new(), "profile");
    let ids: Vec<&str> = matches.iter().map(|m| m.design.id.as_str()).collect();
    assert_eq!(ids, vec!["2", "3", "1"]);
    assert!(matches.iter().all(|m| m.score == 50 && m.match_reason == "contains"));
}

#[test]
fn search_alias_array_targets_and_tags() {
    let c = sample_catalog();
    let aliases = vec![(
        "pages/login.vue".to_string(),
        Json::Array(vec![Json::String("Login".to_string()), Json::Number(Some(3)), Json::String("Dashboard".to_string())]),
    )];
    let matches = search_catalog(&c, &aliases, "login.vue");
    let ids: Vec<&str> = matches.iter().map(|m| m.design.id.as_str()).collect();
    assert_eq!(ids, vec!["3", "2"]);
    assert!(matches.iter().all(|m| m.score == 80));
    // tags are searched too
    let tagged = search_catalog(&c, &Vec::new(), "  OVERVIEW ");
    assert_eq!(tagged.len(), 1);
    assert_eq!(tagged[0].design.id, "3");
    assert_eq!(tagged[0].score, 100);
}

#[test]
fn search_blank_query_finds_nothing() {
    assert!(search_catalog(&sample_catalog(), &Vec::new(), "   ").is_empty());
}

#[test]
fn design_summary_keeps_every_field() {
    let mut d = design("9", "Card", &["ui"]);
    d.aliases = vec!["card.vue".to_string()];
    d.width = Some(375);
    let s = design_summary(&d);
    assert_eq!(s.id, "9");
    assert_eq!(s.name, "Card");
    assert_eq!(s.tags, vec!["ui".to_string()]);
    assert_eq!(s.aliases, vec!["card.vue".to_string()]);
    assert_eq!(s.width, Some(375));
    assert_eq!(s.url, d.url);
}

#[test]
fn workspace_checks() {
    assert_eq!(workspace_verdict("rel/dir", false, true).unwrap_err(), WorkspaceError::NotAbsolute);
    assert_eq!(workspace_verdict("/x", true, false).unwrap_err(), WorkspaceError::Missing);
    assert_eq!(workspace_verdict("/x", true, true).unwrap(), "/x");
    assert!(matches!(resolve_workspace_dir("relative/path"), Err(WorkspaceError::NotAbsolute)));
    assert!(matches!(resolve_workspace_dir(""), Err(WorkspaceError::NotAbsolute)));
    assert_eq!(resolve_workspace_dir("/").unwrap(), "/");
    assert!(matches!(resolve_workspace_dir("/definitely/not/a/real/dir/xyz"), Err(WorkspaceError::Missing)));
    assert_eq!(
        WorkspaceError::Missing.message("/w"),
        "workspaceDir \"/w\" does not exist; create the frontend project root first."
    );
    assert_eq!(
        WorkspaceError::NotAbsolute.message("w"),
        "workspaceDir must be an absolute path to the real frontend project root."
    );
}

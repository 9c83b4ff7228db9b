use openmoonvy_mcp_rs::prompts::{catalog_lines, decimal_text, handoff_prompt};
use openmoonvy_mcp_rs::catalog::{
    include_types, record_sync, select_match, Catalog, CatalogDesign, CatalogMatch, CatalogSource, Selection,
};
use openmoonvy_mcp_rs::genome::class_name;
use openmoonvy_mcp_rs::layers::{locate_node, LayerNode};
use openmoonvy_mcp_rs::listing::{choose_design, design_param, design_selector_of, DesignChoiceError};
use openmoonvy_mcp_rs::prompts::{diff_states_prompt, restore_design_prompt, PromptError};
use openmoonvy_mcp_rs::server::{idle_expired, idle_timeout, matching_workspaces, resource_target};
use openmoonvy_mcp_rs::tools::{download_name, PageRow};

fn design(id: &str, name: &str) -> CatalogDesign {
    CatalogDesign {
        id: id.to_string(),
        name: name.to_string(),
        design_type: "design".to_string(),
        url: format!("https://moonvy.com/project/p/{id}"),
        ..Default::default()
    }
}

fn hit(id: &str, name: &str, score: u32) -> CatalogMatch {
    CatalogMatch { design: design(id, name), score, match_reason: String::new() }
}

#[test]
fn select_match_prefers_single_exact() {
    let m = vec![hit("1", "Home", 100), hit("2", "Home Dashboard", 50)];
    assert_eq!(select_match(&m), Selection::Selected(0));
    let m = vec![hit("2", "Home Dashboard", 50)];
    assert_eq!(select_match(&m), Selection::Selected(0));
    let m = vec![hit("1", "A", 50), hit("2", "B", 80)];
    assert_eq!(select_match(&m), Selection::Ambiguous);
    let m = vec![hit("1", "Home", 100), hit("2", "Home", 100)];
    assert_eq!(select_match(&m), Selection::Ambiguous);
    assert_eq!(select_match(&Vec::new()), Selection::NotFound);
}

#[test]
fn include_types_default_and_lowercase() {
    assert_eq!(include_types(&None), vec!["design".to_string()]);
    assert_eq!(include_types(&Some(vec!["Design".to_string(), "DIR".to_string()])), vec!["design".to_string(), "dir".to_string()]);
}

#[test]
fn record_sync_moves_source_to_end() {
    let mut catalog = Catalog {
        version: 0,
        updated_at: None,
        sources: vec![
            CatalogSource { name: "A".to_string(), url: "u1".to_string(), last_synced_at: "t0".to_string() },
            CatalogSource { name: "B".to_string(), url: "u2".to_string(), last_synced_at: "t0".to_string() },
        ],
        designs: vec![design("old", "Old")],
    };
    record_sync(&mut catalog, vec![design("1", "Home")], None, "u1", "t1");
    assert_eq!(catalog.version, 1);
    assert_eq!(catalog.updated_at.as_deref(), Some("t1"));
    assert_eq!(catalog.designs.len(), 1);
    assert_eq!(catalog.designs[0].id, "1");
    assert_eq!(catalog.sources.len(), 2);
    assert_eq!(catalog.sources[0].url, "u2");
    assert_eq!(catalog.sources[1].url, "u1");
    assert_eq!(catalog.sources[1].name, "Moonvy Project");
    assert_eq!(catalog.sources[1].last_synced_at, "t1");
}

#[test]
fn class_names_from_node_names() {
    assert_eq!(class_name("Primary Button!", "1234:5678"), "PrimaryButton-1234:5");
    assert_eq!(class_name("---", "ab"), "node-ab");
    assert_eq!(class_name("首页 标题", "x"), "首页标题-x");
}

#[test]
fn download_names() {
    assert_eq!(download_name(Some("given.png"), Some("n"), "asset", true, ".svg"), "given.png");
    assert_eq!(download_name(None, Some("my icon"), "asset", false, ".svg"), "my_icon.svg");
    assert_eq!(download_name(None, None, "Card/1", true, ".jpg"), "Card_1_crop.png");
}

fn row(id: &str, name: &str, row_type: &str, url: &str) -> PageRow {
    PageRow { id: id.to_string(), name: name.to_string(), row_type: row_type.to_string(), url: url.to_string(), ..Default::default() }
}

#[test]
fn choose_design_by_selector() {
    let rows = vec![
        row("d", "Folder", "dir", "https://moonvy.com/project/p/d"),
        row("1", "验证码登录", "design", "https://moonvy.com/project/p/d/1"),
        row("2", "Password Login", "design", "https://moonvy.com/project/p/d/2"),
        row("3", "Broken", "design", ""),
    ];
    assert_eq!(choose_design(&rows, None).unwrap(), "https://moonvy.com/project/p/d/1");
    assert_eq!(choose_design(&rows, Some("password")).unwrap(), "https://moonvy.com/project/p/d/2");
    let e = choose_design(&rows, Some("nope")).unwrap_err();
    assert_eq!(e.message(), "No design matches \"nope\". Available designs: 验证码登录, Password Login");
    let e = choose_design(&rows[..1].to_vec(), None).unwrap_err();
    assert!(matches!(e, DesignChoiceError::NoDesigns));
    assert_eq!(e.message(), "Project directory has no design files");
}

#[test]
fn design_selector_from_query() {
    assert_eq!(design_selector_of("https://moonvy.com/project/p/d?design=%E5%AF%86%E7%A0%81"), Some("密码".to_string()));
    assert_eq!(design_selector_of("https://moonvy.com/project/p/d?design="), None);
    assert_eq!(design_selector_of("https://moonvy.com/project/p/d"), None);
    assert_eq!(design_selector_of("not a url"), None);
    assert_eq!(design_selector_of("https://moonvy.com/project/p/d?x=1&design=a&design=b"), Some("a".to_string()));
}

#[test]
fn design_param_takes_the_first_design_pair() {
    let pairs = vec![
        ("page".to_string(), "2".to_string()),
        ("design".to_string(), "登录".to_string()),
        ("design".to_string(), "hover".to_string()),
    ];
    assert_eq!(design_param(&pairs), Some("登录".to_string()));
    assert_eq!(design_param(&vec![("designs".to_string(), "x".to_string())]), None);
    assert_eq!(design_param(&Vec::new()), None);
}

#[test]
fn workspace_completions() {
    let dirs = vec!["/Work/App".to_string(), "/home/site".to_string()];
    assert_eq!(matching_workspaces(&dirs, "app"), vec!["/Work/App".to_string()]);
    assert_eq!(matching_workspaces(&dirs, ""), dirs);
}

#[test]
fn resource_uris() {
    assert_eq!(resource_target("moonvy://catalog//ws/app"), Some(("catalog".to_string(), "/ws/app".to_string())));
    assert_eq!(resource_target("moonvy://aliases/C:/x"), Some(("aliases".to_string(), "C:/x".to_string())));
    assert_eq!(resource_target("moonvy://other/x"), None);
}

#[test]
fn idle_lifecycle() {
    assert_eq!(idle_timeout(None), None);
    assert_eq!(idle_timeout(Some(0)), None);
    assert_eq!(idle_timeout(Some(30)), Some(30));
    assert!(!idle_expired(100, 0, 10), "no request seen yet");
    assert!(!idle_expired(105, 100, 10));
    assert!(idle_expired(110, 100, 10));
    assert!(!idle_expired(50, 100, 10), "a clock going back is not idle time");
}

#[test]
fn restore_prompt_text() {
    let p = restore_design_prompt(Some("https://moonvy.com/project/p/d/f"), None, Some("/ws")).unwrap();
    assert_eq!(p.description, "Design restore workflow for https://moonvy.com/project/p/d/f");
    let lines: Vec<&str> = p.text.lines().collect();
    assert_eq!(lines[0], "Design restore workflow for: https://moonvy.com/project/p/d/f");
    assert_eq!(lines[1], "Target stack: not specified (use sensible defaults)");
    assert_eq!(lines[8], "5. Optionally moonvy_sync_project to index the project (workspace: /ws).");
    assert_eq!(lines.len(), 14);
    assert_eq!(restore_design_prompt(Some(""), None, None).unwrap_err(), PromptError::MissingUrl);
    assert_eq!(restore_design_prompt(None, None, None).unwrap_err().message(), "url is required for moonvy_restore_design");
}

#[test]
fn diff_prompt_text() {
    let p = diff_states_prompt(Some("a"), Some("b"), Some("react")).unwrap();
    assert_eq!(p.description, "State diff workflow: a vs b");
    assert!(p.text.starts_with("State diff workflow: a vs b\nTarget stack: react\n\nSteps:\n"));
    assert_eq!(diff_states_prompt(None, Some("b"), None).unwrap_err(), PromptError::MissingUrlA);
    assert_eq!(diff_states_prompt(Some("a"), Some(""), None).unwrap_err().message(), "urlB is required for moonvy_diff_states");
}

fn ln(id: &str, children: Vec<LayerNode>) -> LayerNode {
    LayerNode { id: Some(id.to_string()), children, ..Default::default() }
}

#[test]
fn locate_node_paths() {
    let pages = vec![ln("p1", vec![ln("a", vec![])]), ln("p2", vec![ln("b", vec![ln("c", vec![])]), ln("I1;d", vec![])])];
    assert_eq!(locate_node(&pages, "c"), Some(vec![1, 0, 0]));
    assert_eq!(locate_node(&pages, "p1"), Some(vec![0]));
    assert_eq!(locate_node(&pages, "d"), Some(vec![1, 1]));
    assert_eq!(locate_node(&pages, "zz"), None);
}

#[test]
fn handoff_prompt_lists_designs_and_aliases() {
    assert_eq!(decimal_text(0), "0");
    assert_eq!(decimal_text(1234), "1234");
    let designs = vec!["Home (design) https://moonvy.com/project/p/1".to_string(), "Login".to_string()];
    let aliases = vec![("首页".to_string(), "\"Home\"".to_string())];
    let p = handoff_prompt("/w", "/w/.moonvy-mcp/catalog.json", &designs, &aliases, 25);
    assert_eq!(p.description, "Handoff for 20 designs in /w");
    assert_eq!(
        p.text,
        "Workspace: /w\nCatalog: /w/.moonvy-mcp/catalog.json\nDesigns (2):\n- Home (design) https://moonvy.com/project/p/1\n- Login\nAliases:\n- 首页 -> \"Home\"\nUse moonvy_get_tree_by_name to fetch a design tree, moonvy_extract_tokens for tokens, and moonvy_download_asset for assets."
    );
    let p = handoff_prompt("/w", "/c", &Vec::new(), &Vec::new(), 3);
    assert_eq!(p.description, "Handoff for 3 designs in /w");
    assert!(p.text.contains("Designs (0):\nUse moonvy_get_tree_by_name"));
    let many: Vec<CatalogDesign> = (0..25).map(|i| design(&i.to_string(), &format!("D{i}"))).collect();
    let lines = catalog_lines(&many);
    assert_eq!(lines.len(), 20);
    assert_eq!(lines[0], "D0 (design) https://moonvy.com/project/p/0");
}

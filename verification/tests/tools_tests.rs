use openmoonvy_mcp_rs::catalog::{Catalog, CatalogDesign};
use openmoonvy_mcp_rs::tree::TreeNode;
use openmoonvy_mcp_rs::tools::{asset_manifest, extension_of_lowercase, ImageRef, infer_extension, normalize_catalog_designs, sanitize_name, sanitize_url, PageRow};

#[test]
fn sanitize_url_drops_credentials_query_and_fragment() {
    assert_eq!(sanitize_url("https://user:pw@example.com/a/b?x=1#frag"), "https://example.com/a/b");
    assert_eq!(sanitize_url("https://moonvy.com/project/p/d/f"), "https://moonvy.com/project/p/d/f");
    assert_eq!(sanitize_url("not a url"), "not a url");
}

#[test]
fn sanitize_name_replaces_unsafe_characters() {
    assert_eq!(sanitize_name("头像 icon/1.png"), "头像_icon_1_png");
    assert_eq!(sanitize_name("a-b_c"), "a-b_c");
    assert_eq!(sanitize_name(""), "");
}

#[test]
fn infer_extension_from_url() {
    assert_eq!(infer_extension("https://x/y/IMG.PNG?x=1"), ".png");
    assert_eq!(infer_extension("https://x/y/a.svg"), ".svg");
    assert_eq!(infer_extension("https://x/y/a.jpeg"), ".jpeg");
    assert_eq!(infer_extension("https://x/a.png/b.svg"), ".svg", "svg is tried first");
    assert_eq!(infer_extension("https://x/y/a.webp"), ".webp");
    assert_eq!(infer_extension("https://x/y/a"), "");
}

fn row(id: &str, name: &str, t: &str, url: &str) -> PageRow {
    PageRow {
        id: id.to_string(),
        name: name.to_string(),
        row_type: t.to_string(),
        url: url.to_string(),
        project_id: "p".to_string(),
        parent_id: Some("d".to_string()),
        width: Some(375),
        ..Default::default()
    }
}

#[test]
fn catalog_designs_keep_previous_aliases_and_filter_types() {
    let previous = Catalog {
        version: 1,
        updated_at: None,
        sources: vec![],
        designs: vec![CatalogDesign {
            id: "old-id".to_string(),
            name: "Home".to_string(),
            aliases: vec!["home.vue".to_string()],
            tags: vec!["main".to_string()],
            ..Default::default()
        }],
    };
    let rows = vec![
        row("1", "Home", "Design", "https://u:p@moonvy.com/project/p/d/1?x=1"),
        row("2", "Folder", "dir", "https://moonvy.com/project/p/2"),
        row("3", "", "design", "https://moonvy.com/project/p/d/3"),
    ];
    let designs = normalize_catalog_designs(&rows, &["design".to_string()], &previous, "2026-01-01T00:00:00.000Z");
    assert_eq!(designs.len(), 1);
    let d = &designs[0];
    assert_eq!(d.id, "1");
    assert_eq!(d.url, "https://moonvy.com/project/p/d/1");
    assert_eq!(d.aliases, vec!["home.vue".to_string()], "aliases kept via the name");
    assert_eq!(d.tags, vec!["main".to_string()]);
    assert_eq!(d.parent_id, "d");
    assert_eq!(d.last_synced_at, "2026-01-01T00:00:00.000Z");
    assert_eq!(d.width, Some(375));

    let all = normalize_catalog_designs(&rows, &[], &Catalog::default(), "t");
    assert_eq!(all.len(), 2, "no type filter; the nameless row is dropped");
    assert!(all[1].aliases.is_empty());
}

#[test]
fn sanitize_name_is_idempotent_on_samples() {
    for name in ["头像 icon/1.png", "a-b_c", "..//", "Ünïcödé ✓"] {
        let once = sanitize_name(name);
        assert_eq!(sanitize_name(&once), once);
    }
}

#[test]
fn extension_of_lowercased_url() {
    assert_eq!(extension_of_lowercase("https://x/y/img.png?x=1"), ".png");
    assert_eq!(extension_of_lowercase("https://x/a.jpg"), ".jpg");
    assert_eq!(extension_of_lowercase("https://x/a.GIF"), "", "the URL is taken as already lowercased");
}

fn snap(id: &str, hash: Option<&str>, children: Vec<TreeNode>) -> TreeNode {
    TreeNode {
        id: id.to_string(),
        snapshot_hash: hash.map(|h| h.to_string()),
        children: if children.is_empty() { None } else { Some(children) },
        ..Default::default()
    }
}

fn image(hash: &str, url: Option<&str>) -> ImageRef {
    ImageRef { hash: hash.to_string(), url: url.map(|u| u.to_string()), image_type: Some("png".to_string()) }
}

#[test]
fn asset_manifest_lists_referencing_nodes_in_walk_order() {
    // Stack walk: the last root first, each node before its children,
    // children last to first: b, b2, b1, a.
    let tree = vec![
        snap("a", Some("h1"), vec![]),
        snap("b", Some("h1"), vec![snap("b1", Some("h1"), vec![]), snap("b2", Some("h2"), vec![])]),
    ];
    let images = vec![image("h1", Some("https://x/h1")), image("h3", None), image("h2", Some("https://x/h2"))];
    let m = asset_manifest(&tree, &images);
    assert_eq!(m.len(), 3);
    assert_eq!(m[0].hash, "h1");
    assert_eq!(m[0].url, "https://x/h1");
    assert_eq!(m[0].refs, Some(vec!["b".to_string(), "b1".to_string(), "a".to_string()]));
    assert_eq!(m[1].url, "", "a missing URL becomes empty");
    assert_eq!(m[1].refs, None, "no node references h3");
    assert_eq!(m[2].refs, Some(vec!["b2".to_string()]));
    assert_eq!(m[2].asset_type.as_deref(), Some("png"));
}

#[test]
fn asset_manifest_keeps_at_most_fifty_images() {
    let images: Vec<ImageRef> = (0..60).map(|i| image(&format!("h{i}"), None)).collect();
    let m = asset_manifest(&Vec::new(), &images);
    assert_eq!(m.len(), 50);
    assert_eq!(m[49].hash, "h49");
}

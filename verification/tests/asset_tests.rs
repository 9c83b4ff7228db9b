use openmoonvy_mcp_rs::api::{FileRef, Files, Preview};
use openmoonvy_mcp_rs::asset::{
    find_layer, find_parent_snapshot, pick_layer_asset, pick_node_asset, resolve_asset_url, AssetError, AssetNode,
    FillRef, ImageInfo,
};
use openmoonvy_mcp_rs::json::Json;

fn n(id: &str, name: &str, children: Vec<AssetNode>) -> AssetNode {
    AssetNode { id: Some(id.to_string()), name: Some(name.to_string()), children, ..Default::default() }
}

fn image_fill(hash: &str) -> FillRef {
    FillRef { fill_type: Some("image".to_string()), image_hash: Some(hash.to_string()), id: None, hash: None }
}

fn slices(members: Vec<(&str, &str)>) -> Json {
    Json::Object(
        members
            .into_iter()
            .map(|(k, id)| (k.to_string(), Json::Object(vec![("id".to_string(), Json::String(id.to_string()))])))
            .collect(),
    )
}

/// page > frame (snapshot) > group > leaf
fn pages() -> Vec<AssetNode> {
    let leaf = n("4:4", "Leaf", vec![]);
    let group = n("3:3", "Group", vec![leaf]);
    let mut frame = n("2:2", "Card", vec![group]);
    frame.snapshot = Some("snap-card".to_string());
    vec![n("1:1", "Page", vec![frame])]
}

#[test]
fn asset_url_prefers_manifest_then_images_then_default() {
    let assets = vec![("h1".to_string(), Json::String("https://cdn/h1.svg".to_string())), ("h2".to_string(), Json::String(String::new()))];
    let images = vec![("h2".to_string(), ImageInfo { url: Some("https://img/h2.png".to_string()), image_type: Some("png".to_string()) })];
    assert_eq!(resolve_asset_url(&"h1".to_string(), &assets, &images), "https://cdn/h1.svg");
    assert_eq!(resolve_asset_url(&"h2".to_string(), &assets, &images), "https://img/h2.png");
    assert_eq!(resolve_asset_url(&"h3".to_string(), &assets, &images), "https://fs.moonvy.com/h3");
}

#[test]
fn parent_snapshot_walks_up_to_nearest_ancestor() {
    let p = pages();
    assert_eq!(find_parent_snapshot(&p, "4:4"), Some(("snap-card".to_string(), Some("Card".to_string()))));
    assert_eq!(find_parent_snapshot(&p, "2:2"), None);
    assert_eq!(find_parent_snapshot(&p, "I9:9;4:4"), Some(("snap-card".to_string(), Some("Card".to_string()))));
}

#[test]
fn find_layer_reports_page_position() {
    let mut p = pages();
    p.push(n("5:5", "Other", vec![n("6:6", "X", vec![])]));
    let (page, layer) = find_layer(&p, "6:6").unwrap();
    assert_eq!(page, 1);
    assert_eq!(layer.name.as_deref(), Some("X"));
    assert!(find_layer(&p, "nope").is_none());
}

#[test]
fn slice_pick_uses_format_then_max_then_base() {
    let p = pages();
    let mut icon = n("7:7", "Icon", vec![]);
    icon.slices = Some(slices(vec![("svg", "s-svg"), ("base", "s-base")]));
    let pick = pick_layer_asset(&icon, &p, None, None, &vec![], &vec![]).unwrap();
    assert_eq!(pick.url, "https://fs.moonvy.com/s-svg");
    assert_eq!(pick.extension, ".svg");
    assert_eq!(pick.resolved_type, "slice");
    let pick = pick_layer_asset(&icon, &p, None, Some("max"), &vec![], &vec![]).unwrap();
    assert_eq!(pick.url, "https://fs.moonvy.com/s-base");
    assert_eq!(pick.extension, ".png");
}

#[test]
fn slice_errors() {
    let p = pages();
    let plain = n("8:8", "Plain", vec![]);
    let e = pick_layer_asset(&plain, &p, Some("slice"), None, &vec![], &vec![]).unwrap_err();
    assert!(matches!(e, AssetError::NoSlices));
    assert!(e.is_unavailable());
    assert_eq!(e.message(), "Node does not have slices.");

    let mut odd = n("9:9", "Odd", vec![]);
    odd.slices = Some(Json::Object(vec![("png".to_string(), Json::Bool(true))]));
    let e = pick_layer_asset(&odd, &p, None, Some("svg"), &vec![], &vec![]).unwrap_err();
    assert_eq!(e.message(), "Format \"svg\" not found on slice.");
}

#[test]
fn snapshot_pick_own_then_ancestor() {
    let p = pages();
    let card = &p[0].children[0];
    let pick = pick_layer_asset(card, &p, None, None, &vec![], &vec![]).unwrap();
    assert_eq!(pick.resolved_type, "snapshot:own");
    assert_eq!(pick.snapshot_hash.as_deref(), Some("snap-card"));
    assert!(pick.wants_rect);

    let leaf = &p[0].children[0].children[0].children[0];
    let pick = pick_layer_asset(leaf, &p, Some("snapshot"), None, &vec![], &vec![]).unwrap();
    assert_eq!(pick.resolved_type, "snapshot:ancestor");
    assert_eq!(pick.name, "Card");
    assert_eq!(pick.extension, ".png");

    let top = &p[0];
    let e = pick_layer_asset(top, &p, Some("snapshot"), None, &vec![], &vec![]).unwrap_err();
    assert_eq!(e.message(), "No snapshot found for this node or its parents.");
}

#[test]
fn image_pick_and_snapshot_fallback() {
    let p = pages();
    let images = vec![("img-1".to_string(), ImageInfo { url: Some("https://img/1".to_string()), image_type: Some("jpg".to_string()) })];
    let mut photo = n("4:4", "Photo", vec![]);
    photo.fills = vec![image_fill("img-1")];
    let pick = pick_layer_asset(&photo, &p, None, None, &vec![], &images).unwrap();
    assert_eq!(pick.resolved_type, "image");
    assert_eq!(pick.url, "https://img/1");
    assert_eq!(pick.extension, ".jpg");
    assert!(!pick.wants_rect);

    // An unresolvable hash falls back to the ancestor's snapshot.
    photo.fills = vec![image_fill("unknown")];
    let pick = pick_layer_asset(&photo, &p, None, None, &vec![], &images).unwrap();
    assert_eq!(pick.resolved_type, "image-fallback-snapshot:ancestor");
    assert_eq!(pick.name, "Photo");
    assert!(pick.wants_rect);

    // Without an id there is nothing to fall back on.
    photo.id = None;
    let e = pick_layer_asset(&photo, &p, None, None, &vec![], &images).unwrap_err();
    assert_eq!(e.message(), "Image fill does not have a valid asset reference.");
}

#[test]
fn invalid_asset_type_is_a_failure() {
    let p = pages();
    let e = pick_layer_asset(&p[0], &p, Some("video"), None, &vec![], &vec![]).unwrap_err();
    assert!(!e.is_unavailable());
    assert_eq!(e.message(), "Invalid type: video");
}

#[test]
fn node_pick_file_then_preview() {
    let preview = Some(Preview { normal: Some("https://p/n.png".to_string()), large: Some("https://p/l.png".to_string()) });
    let files = Some(Files { genome: None, file: Some(FileRef { url: Some("https://f/doc.SVG?x=1".to_string()) }) });
    let name = Some("Doc".to_string());
    let pick = pick_node_asset(None, &name, &preview, &files).unwrap();
    assert_eq!(pick.url, "https://f/doc.SVG?x=1");
    assert_eq!(pick.extension, ".svg");
    assert_eq!(pick.name, "Doc");

    let pick = pick_node_asset(Some("snapshot"), &None, &preview, &files).unwrap();
    assert_eq!(pick.url, "https://p/l.png");
    assert_eq!(pick.name, "unnamed");

    let e = pick_node_asset(None, &name, &None, &None).unwrap_err();
    assert_eq!(e.message(), "Node does not have any downloadable asset or preview.");
}

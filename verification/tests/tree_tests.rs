use openmoonvy_mcp_rs::genome::TextContent;
use openmoonvy_mcp_rs::layers::{locate_node, LayerNode};
use openmoonvy_mcp_rs::shape::{build_tree, SourceNode, TreeSettings};
use openmoonvy_mcp_rs::tree::{count_nodes, NodeStyle, TreeNode};

/// A placed node with no content.
fn node(id: &str, name: &str, node_type: &str, x: i64, y: i64, w: i64, h: i64) -> SourceNode {
    SourceNode {
        id: Some(id.to_string()),
        name: Some(name.to_string()),
        node_type: Some(node_type.to_string()),
        x,
        y,
        width: w,
        height: h,
        ..Default::default()
    }
}

fn with_children(mut n: SourceNode, children: Vec<SourceNode>) -> SourceNode {
    n.children = children;
    n
}

fn filled(mut n: SourceNode) -> SourceNode {
    n.has_fills = true;
    n
}

fn text_node(id: &str, name: &str, x: i64, y: i64, w: i64, h: i64, text: &str) -> SourceNode {
    let mut n = node(id, name, "text", x, y, w, h);
    n.text = Some(text.to_string());
    n
}

fn settings() -> TreeSettings {
    TreeSettings {
        with_style: false,
        max_depth: 99,
        skip_empty_groups: false,
        only: None,
        detect_duplicates: false,
        deduplicate: true,
        text_content: TextContent::Truncate,
    }
}

/// The page > group1 > group2 > (Title, Icon) chain, placed without flatten.
fn chain() -> Vec<SourceNode> {
    let title = text_node("t:1", "Title", 5, 5, 200, 40, "Hello");
    let icon = filled(node("i:1", "Icon", "frame", 60, 60, 50, 50));
    let group2 = with_children(node("g:2", "group2", "group", 30, 40, 500, 400), vec![title, icon]);
    let group1 = with_children(node("g:1", "group1", "group", 10, 20, 800, 600), vec![group2]);
    vec![with_children(node("p:0", "Page", "page", 100, 200, 1440, 900), vec![group1])]
}

fn kids(n: &TreeNode) -> &Vec<TreeNode> {
    n.children.as_ref().unwrap()
}

#[test]
fn tree_skip_empty_groups() {
    let full = build_tree(&chain(), &settings());
    assert_eq!(kids(&full[0])[0].name, "group1");

    let s = TreeSettings { skip_empty_groups: true, ..settings() };
    let filtered = build_tree(&chain(), &s);
    let children = kids(&filtered[0]);
    assert_eq!(children[0].name, "Title");
    assert_eq!(children[1].name, "Icon");
}

#[test]
fn tree_only_filter() {
    let s = TreeSettings { only: Some(vec!["text".to_string()]), ..settings() };
    let texts = build_tree(&chain(), &s);
    assert_eq!(texts.len(), 1);
    assert_eq!(texts[0].id, "t:1");
}

#[test]
fn tree_only_image_semantic() {
    let mut cover = node("a:1", "Cover", "rectangle", 0, 0, 50, 50);
    cover.snapshot = Some("snap:1".to_string());
    let mut avatar = filled(node("a:2", "Avatar", "ellipse", 60, 0, 30, 30));
    avatar.has_image_fill = true;
    let boxed = filled(node("a:3", "Box", "rectangle", 0, 60, 20, 20));
    let pages = vec![with_children(node("p:0", "Page", "page", 0, 0, 100, 100), vec![cover, avatar, boxed])];
    let s = TreeSettings { only: Some(vec!["image".to_string()]), ..settings() };
    let tree = build_tree(&pages, &s);
    assert_eq!(tree.len(), 2, "snapshot + image-fill nodes matched");
    assert_eq!(tree[0].id, "a:1");
    assert_eq!(tree[1].id, "a:2");
}

#[test]
fn tree_text_truncate() {
    let long = "x".repeat(120);
    let pages = vec![with_children(
        node("p:0", "Page", "page", 0, 0, 100, 100),
        vec![text_node("t:1", "Title", 0, 0, 50, 20, &long)],
    )];
    let tree = build_tree(&pages, &settings());
    let text = kids(&tree[0])[0].text.clone().unwrap();
    assert_eq!(text.chars().count(), 41, "40 chars + ellipsis");
    assert!(text.ends_with('…'));

    let s = TreeSettings { text_content: TextContent::Full, ..settings() };
    let tree = build_tree(&pages, &s);
    assert_eq!(kids(&tree[0])[0].text.as_deref(), Some(long.as_str()));

    let s = TreeSettings { text_content: TextContent::NoText, ..settings() };
    let tree = build_tree(&pages, &s);
    assert_eq!(kids(&tree[0])[0].text, None);
}

fn mask_page(shape_is_mask: bool) -> Vec<SourceNode> {
    let mut shape = node("shape:1", "裁剪形状", "layer", 0, 0, 60, 60);
    shape.mask_shape = shape_is_mask;
    let content = filled(node("content:1", "被裁剪内容", "layer", 0, 0, 60, 60));
    let group = with_children(node("mask:1", "蒙版组 94", "group", 0, 0, 60, 60), vec![shape, content]);
    vec![with_children(node("p:0", "Page", "page", 0, 0, 100, 100), vec![group])]
}

#[test]
fn mask_group_survives_skip_empty_groups() {
    let s = TreeSettings { skip_empty_groups: true, ..settings() };
    let tree = build_tree(&mask_page(true), &s);
    let mask = &kids(&tree[0])[0];
    assert_eq!(mask.name, "蒙版组 94", "mask group must survive skipEmptyGroups");
    assert_eq!(kids(mask).len(), 2);
    assert_eq!(mask.is_mask_group, Some(true), "mask group must carry isMaskGroup marker");

    // Without mask markers the same empty group is lifted away.
    let tree = build_tree(&mask_page(false), &s);
    assert_eq!(kids(&tree[0])[0].name, "被裁剪内容");
}

#[test]
fn mask_group_survives_with_pure_mask_marker_only() {
    let mut shape = node("shape:1", "裁剪形状", "layer", 0, 0, 60, 60);
    shape.mask_shape = true;
    let group = with_children(node("mask:1", "蒙版组 94", "group", 0, 0, 60, 60), vec![shape]);
    let pages = vec![with_children(node("p:0", "Page", "page", 0, 0, 100, 100), vec![group])];
    let s = TreeSettings { skip_empty_groups: true, ..settings() };
    let tree = build_tree(&pages, &s);
    let mask = &kids(&tree[0])[0];
    assert_eq!(mask.name, "蒙版组 94", "isPureMask-only group must survive skipEmptyGroups");
    assert_eq!(mask.is_mask_group, Some(true), "mask group must carry isMaskGroup marker");
}

/// A styled "Btn" frame as the placement step signs it.
fn button(id: &str, x: i64, w: i64, h: i64) -> SourceNode {
    let mut n = filled(node(id, "Btn", "frame", x, 0, w, h));
    n.style = Some(NodeStyle { background: Some("#010203".to_string()), ..Default::default() });
    n.signature = format!("Btn|frame||{w}/{h}|#010203||None|None|None|");
    n
}

#[test]
fn duplicates_require_same_geometry() {
    let pages = vec![with_children(
        node("p:0", "Page", "page", 0, 0, 100, 100),
        vec![button("a:1", 0, 50, 50), button("a:2", 0, 50, 50), button("a:3", 0, 80, 50)],
    )];
    let s = TreeSettings { with_style: true, detect_duplicates: true, ..settings() };
    let tree = build_tree(&pages, &s);
    let k = kids(&tree[0]);
    assert_eq!(k[0].duplicate_of, None);
    assert_eq!(k[1].duplicate_of.as_deref(), Some("a:1"));
    assert_eq!(k[2].duplicate_of, None, "different size is not a duplicate");
}

#[test]
fn tree_detect_duplicates() {
    let pages = vec![with_children(
        node("p:0", "Page", "page", 0, 0, 100, 100),
        vec![button("a:1", 0, 50, 50), button("a:2", 60, 50, 50)],
    )];
    let s = TreeSettings { with_style: true, detect_duplicates: true, ..settings() };
    let tree = build_tree(&pages, &s);
    let second = &kids(&tree[0])[1];
    assert_eq!(second.duplicate_of.as_deref(), Some("a:1"));
}

#[test]
fn duplicate_stub_keeps_position_only() {
    let pages = vec![with_children(
        node("p:0", "Page", "page", 0, 0, 100, 100),
        vec![button("a:1", 0, 50, 50), button("a:2", 60, 50, 50)],
    )];
    let s = TreeSettings { with_style: true, detect_duplicates: true, ..settings() };
    let tree = build_tree(&pages, &s);
    let stub = &kids(&tree[0])[1];
    assert_eq!(stub.x, 60);
    assert!(stub.style.is_none() && stub.children.is_none() && stub.text.is_none());

    // Without deduplication the repeat keeps its style and is only marked.
    let s = TreeSettings { with_style: true, detect_duplicates: true, deduplicate: false, ..settings() };
    let tree = build_tree(&pages, &s);
    let marked = &kids(&tree[0])[1];
    assert_eq!(marked.duplicate_of.as_deref(), Some("a:1"));
    assert!(marked.style.is_some());
}

#[test]
fn tree_snapshot_hash_exposed() {
    let mut avatar = node("img:1", "Avatar", "ellipse", 0, 0, 10, 10);
    avatar.snapshot = Some("snap-abc".to_string());
    let pages = vec![with_children(node("p:0", "Page", "page", 0, 0, 100, 100), vec![avatar])];
    let tree = build_tree(&pages, &settings());
    assert_eq!(kids(&tree[0])[0].snapshot_hash.as_deref(), Some("snap-abc"));

    let mut card = node("img:2", "Card", "frame", 0, 0, 10, 10);
    card.snapshot_preview = Some("snap-xyz".to_string());
    let pages = vec![with_children(node("p:0", "Page", "page", 0, 0, 100, 100), vec![card])];
    let tree = build_tree(&pages, &settings());
    assert_eq!(kids(&tree[0])[0].snapshot_hash.as_deref(), Some("snap-xyz"));
}

#[test]
fn tree_skip_empty_groups_drops_empty_leaves() {
    let wrap = with_children(node("g:1", "wrap", "group", 0, 0, 50, 50), vec![text_node("t:1", "Title", 0, 0, 20, 10, "Hi")]);
    let leaf = node("g:2", "empty-leaf", "group", 0, 0, 10, 10);
    let boxed = filled(node("r:1", "Box", "rectangle", 0, 0, 10, 10));
    let pages = vec![with_children(node("p:0", "Page", "page", 0, 0, 100, 100), vec![wrap, leaf, boxed])];
    let s = TreeSettings { skip_empty_groups: true, ..settings() };
    let tree = build_tree(&pages, &s);
    let k = kids(&tree[0]);
    assert_eq!(k.len(), 2, "wrapper lifted, empty leaf dropped");
    assert_eq!(k[0].id, "t:1");
    assert_eq!(k[1].id, "r:1");

    let kept = build_tree(&pages, &settings());
    assert_eq!(kids(&kept[0]).len(), 3);
}

#[test]
fn tree_region_outside_nodes_dropped() {
    let mut title = text_node("t:1", "Title", 0, 0, 20, 10, "Hi");
    title.outside_region = true;
    let icon = filled(node("i:1", "Icon", "frame", 0, 0, 10, 10));
    let pages = vec![with_children(node("p:0", "Page", "page", 0, 0, 100, 100), vec![title, icon])];
    let tree = build_tree(&pages, &settings());
    let k = kids(&tree[0]);
    assert_eq!(k.len(), 1);
    assert_eq!(k[0].name, "Icon");
}

#[test]
fn tree_max_depth_cuts_children() {
    let s = TreeSettings { max_depth: 1, ..settings() };
    let tree = build_tree(&chain(), &s);
    let group1 = &kids(&tree[0])[0];
    assert_eq!(group1.name, "group1");
    assert!(group1.children.is_none());
}

/// The layer record of a placed node, as the node lookup sees it.
fn layer_of(n: &SourceNode) -> LayerNode {
    LayerNode {
        id: n.id.clone(),
        name: n.name.clone(),
        node_type: n.node_type.clone(),
        x: n.x,
        y: n.y,
        width: n.width,
        height: n.height,
        text: n.text.clone(),
        children: n.children.iter().map(layer_of).collect(),
    }
}

/// The layer tree of the subtree rooted at `node_id` (empty for an unknown id).
fn subtree(mut roots: Vec<SourceNode>, node_id: &str) -> Vec<TreeNode> {
    let pages: Vec<LayerNode> = roots.iter().map(layer_of).collect();
    match locate_node(&pages, node_id) {
        Some(path) => {
            let mut n = roots.swap_remove(path[0]);
            for i in &path[1..] {
                n = n.children.swap_remove(*i);
            }
            build_tree(&vec![n], &settings())
        }
        None => Vec::new(),
    }
}

#[test]
fn tree_node_id_subtree() {
    let tree = subtree(chain(), "g:1");
    assert_eq!(tree.len(), 1);
    assert_eq!(tree[0].name, "group1");
    assert_eq!(tree[0].children.as_ref().unwrap().len(), 1);
    // Unknown id -> empty.
    assert!(subtree(chain(), "nope").is_empty());
}

/// An unstyled "Btn" frame as the placement step signs it when styles are off.
fn plain_button(id: &str, x: i64) -> SourceNode {
    let mut n = filled(node(id, "Btn", "frame", x, 0, 50, 50));
    n.signature = "Btn|frame||50/50".to_string();
    n
}

#[test]
fn duplicates_detected_without_styles() {
    let pages = vec![with_children(
        node("p:0", "Page", "page", 0, 0, 100, 100),
        vec![plain_button("a:1", 0), plain_button("a:2", 60)],
    )];
    let s = TreeSettings { with_style: false, detect_duplicates: true, ..settings() };
    let tree = build_tree(&pages, &s);
    let k = kids(&tree[0]);
    assert_eq!(k[0].duplicate_of, None);
    assert_eq!(k[1].duplicate_of.as_deref(), Some("a:1"));
}

#[test]
fn options_never_grow_the_tree() {
    let full = count_nodes(&build_tree(&chain(), &settings()));
    assert_eq!(full, 5, "with no option every node is kept");
    let variants = vec![
        TreeSettings { skip_empty_groups: true, ..settings() },
        TreeSettings { only: Some(vec!["text".to_string()]), ..settings() },
        TreeSettings { max_depth: 1, ..settings() },
        TreeSettings { detect_duplicates: true, ..settings() },
    ];
    for s in &variants {
        assert!(count_nodes(&build_tree(&chain(), s)) <= full);
    }
}

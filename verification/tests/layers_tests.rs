use openmoonvy_mcp_rs::layers::{extract_design_meta, extract_layers, find_node, find_nodes, LayerNode};

fn node(id: &str, name: &str, node_type: Option<&str>, rect: (i64, i64, i64, i64), children: Vec<LayerNode>) -> LayerNode {
    LayerNode {
        id: Some(id.to_string()),
        name: Some(name.to_string()),
        node_type: node_type.map(|t| t.to_string()),
        x: rect.0,
        y: rect.1,
        width: rect.2,
        height: rect.3,
        text: None,
        children,
    }
}

fn sample_pages() -> Vec<LayerNode> {
    let mut logo = node("1:2", "Logo", Some("text"), (20, 24, 100, 32), vec![]);
    logo.text = Some("LOGO".to_string());
    let btn = node("1:3", "Btn", Some("rectangle"), (1300, 16, 100, 48), vec![]);
    let header = node("1:1", "Header", Some("frame"), (0, 0, 1440, 80), vec![logo, btn]);
    vec![node("1:0", "Home", None, (0, 0, 1440, 900), vec![header]), node("2:0", "About", None, (0, 0, 1024, 768), vec![])]
}

fn chain_pages() -> Vec<LayerNode> {
    let mut title = node("t:1", "Title", Some("text"), (5, 5, 200, 40), vec![]);
    title.text = Some("Hello".to_string());
    let icon = node("i:1", "Icon", Some("frame"), (60, 60, 50, 50), vec![]);
    let g2 = node("g:2", "group2", Some("group"), (30, 40, 500, 400), vec![title, icon]);
    let g1 = node("g:1", "group1", Some("group"), (10, 20, 800, 600), vec![g2]);
    vec![node("p:0", "Page", Some("page"), (100, 200, 1440, 900), vec![g1])]
}

#[test]
fn find_nodes_by_name_and_text() {
    let pages = chain_pages();
    let hits = find_nodes(&pages, None, "title", 10);
    assert_eq!(hits.len(), 1);
    assert_eq!(hits[0].id, "t:1");
    assert_eq!(hits[0].text.as_deref(), Some("Hello"));

    let hits = find_nodes(&pages, None, "ICON", 10);
    assert_eq!(hits.len(), 1);
    assert_eq!(hits[0].id, "i:1");

    let hits = find_nodes(&pages, None, "missing", 10);
    assert!(hits.is_empty());

    let hits = find_nodes(&pages, None, "icon", 1);
    assert_eq!(hits.len(), 1, "limit respected");

    let hits = find_nodes(&pages, None, "", 10);
    assert!(hits.is_empty(), "empty query returns nothing");
}

#[test]
fn find_nodes_reports_component_container() {
    let mut title = node("t:1", "标题", Some("text"), (0, 0, 0, 0), vec![]);
    title.text = Some("编辑个人资料".to_string());
    let modal = node("modal:1", "弹窗容器", Some("artboard"), (10, 10, 80, 80), vec![title]);
    let pages = vec![node("p:0", "Page", Some("page"), (0, 0, 100, 100), vec![modal])];
    let hits = find_nodes(&pages, None, "编辑个人资料", 10);
    assert_eq!(hits.len(), 1);
    assert_eq!(hits[0].id, "t:1");
    assert_eq!(hits[0].container_id.as_deref(), Some("modal:1"));
    assert_eq!(hits[0].container_name.as_deref(), Some("弹窗容器"));
    assert_eq!(hits[0].container_type.as_deref(), Some("artboard"));
}

#[test]
fn find_nodes_depth_first_with_limit_and_nearest_container() {
    let pages = chain_pages();
    // "group" matches both groups; the outer one has no container above it
    let hits = find_nodes(&pages, None, "group", 10);
    let ids: Vec<&str> = hits.iter().map(|h| h.id.as_str()).collect();
    assert_eq!(ids, vec!["g:1", "g:2"]);
    assert!(hits[0].container_id.is_none());
    assert_eq!(hits[1].container_id.as_deref(), Some("g:1"));
    // the icon's nearest container is the inner group
    let hits = find_nodes(&pages, None, "i", 10);
    let icon = hits.iter().find(|h| h.id == "i:1").unwrap();
    assert_eq!(icon.container_id.as_deref(), Some("g:2"));
    assert_eq!((icon.x, icon.y, icon.width, icon.height), (60, 60, 50, 50));
    // frame filter keeps only the matching page
    assert!(find_nodes(&pages, Some("other"), "title", 10).is_empty());
    assert_eq!(find_nodes(&pages, Some("p:0"), "title", 10).len(), 1);
}

#[test]
fn layers_limit_and_frame_filter() {
    let pages = sample_pages();
    assert_eq!(extract_layers(&pages, None, 50).len(), 5);
    assert_eq!(extract_layers(&pages, Some("1:0"), 50).len(), 4);
    assert_eq!(extract_layers(&pages, Some("1:0"), 2).len(), 2);
    assert_eq!(extract_layers(&pages, Some("missing"), 50).len(), 0);
}

#[test]
fn layers_come_in_depth_first_order() {
    let layers = extract_layers(&sample_pages(), None, 50);
    let ids: Vec<&str> = layers.iter().map(|l| l.id.as_str()).collect();
    assert_eq!(ids, vec!["1:0", "1:1", "1:2", "1:3", "2:0"]);
    assert_eq!(layers[3].layer_type, "rectangle");
    assert_eq!((layers[3].x, layers[3].y, layers[3].width, layers[3].height), (1300, 16, 100, 48));
    assert_eq!(layers[0].layer_type, "");
}

#[test]
fn design_meta_title_and_frames() {
    let meta = extract_design_meta(&sample_pages(), None);
    assert_eq!(meta.title, "Home");
    assert_eq!(meta.frame_count, 2);
    assert_eq!(meta.frames[0].name, "Home");
    assert_eq!(meta.frames[0].width, 1440);
}

#[test]
fn design_meta_title_sources() {
    assert_eq!(extract_design_meta(&sample_pages(), Some("My design")).title, "My design");
    assert_eq!(extract_design_meta(&sample_pages(), Some("")).title, "Home");
    let empty = extract_design_meta(&Vec::new(), None);
    assert_eq!(empty.title, "Untitled");
    assert_eq!(empty.frame_count, 0);
    let mut unnamed = sample_pages();
    unnamed[0].name = None;
    assert_eq!(extract_design_meta(&unnamed, None).frames[0].name, "Untitled");
}

#[test]
fn find_node_by_id_and_segment() {
    let pages = sample_pages();
    let found = find_node(&pages[0], "1:3").unwrap();
    assert_eq!(found.name.as_deref(), Some("Btn"));
    assert!(find_node(&pages[0], "nope").is_none());
    let compound = vec![node("I9:1;1:7", "Instance", None, (0, 0, 1, 1), vec![])];
    let root = node("r", "Root", None, (0, 0, 1, 1), compound);
    assert_eq!(find_node(&root, "1:7").unwrap().name.as_deref(), Some("Instance"));
}

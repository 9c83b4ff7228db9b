use openmoonvy_mcp_rs::api::MoonvyUrl;
use openmoonvy_mcp_rs::json::Json;
use openmoonvy_mcp_rs::listing::{
    can_have_children, extract_items, is_directory_type, is_last_page, normalize_item, pagination_meta, pick_string, PageWalk, Pagination,
};

fn s(v: &str) -> Json {
    Json::String(v.to_string())
}

fn n(v: i64) -> Json {
    Json::Number(Some(v))
}

fn obj(members: Vec<(&str, Json)>) -> Json {
    Json::Object(members.into_iter().map(|(k, v)| (k.to_string(), v)).collect())
}

fn sample_item() -> Json {
    obj(vec![
        ("id", s("file-1")),
        ("name", s("首页")),
        ("type", s("design")),
        ("parentId", s("dir-1")),
        ("createdAt", s("2026-01-02T03:04:05Z")),
        ("updatedAt", s("2026-08-10T00:00:00Z")),
        ("size", obj(vec![("width", n(1440)), ("height", n(900))])),
        ("preview", obj(vec![("normal", s("https://cdn.example.com/p.png"))])),
    ])
}

#[test]
fn normalize_item_parses_metadata_and_serializes_camel_case() {
    let row = normalize_item(&sample_item(), "proj-1", None).unwrap();
    assert_eq!(row.name, "首页");
    assert_eq!(row.parent_id.as_deref(), Some("dir-1"));
    assert_eq!(row.created_at.as_deref(), Some("2026-01-02T03:04:05Z"));
    assert_eq!(row.updated_at.as_deref(), Some("2026-08-10T00:00:00Z"));
    assert_eq!(row.width, Some(1440));
    assert_eq!(row.height, Some(900));
    assert_eq!(row.preview.as_ref().and_then(|p| p.normal.as_deref()), Some("https://cdn.example.com/p.png"));
    assert_eq!(row.project_id, "proj-1");
    assert_eq!(row.url, "https://moonvy.com/project/proj-1/dir-1/file-1");
}

#[test]
fn normalize_item_tolerates_missing_metadata() {
    let row = normalize_item(&obj(vec![("id", s("file-2")), ("name", s("首页"))]), "proj-1", None).unwrap();
    assert!(row.created_at.is_none());
    assert!(row.updated_at.is_none());
    assert!(row.width.is_none());
    assert!(row.height.is_none());
    assert!(row.preview.is_none());
}

#[test]
fn normalize_item_reads_flat_dimensions() {
    let row = normalize_item(
        &obj(vec![("id", s("file-3")), ("name", s("登录")), ("width", n(1280)), ("height", n(720))]),
        "proj-1",
        None,
    )
    .unwrap();
    assert_eq!(row.width, Some(1280));
    assert_eq!(row.height, Some(720));
}

#[test]
fn normalize_item_key_fallbacks() {
    let item = obj(vec![
        ("id", s("")),
        ("uuid", s("u-1")),
        ("title", s("Settings")),
        ("kind", s("Folder")),
        ("w", n(10)),
        ("rect", obj(vec![("h", n(20))])),
    ]);
    let row = normalize_item(&item, "p", Some("d")).unwrap();
    assert_eq!(row.id, "u-1");
    assert_eq!(row.name, "Settings");
    assert_eq!(row.row_type, "Folder");
    assert_eq!(row.width, Some(10));
    assert_eq!(row.height, Some(20));
    assert_eq!(row.url, "https://moonvy.com/project/p/d/u-1");
    assert!(normalize_item(&obj(vec![("name", s("x"))]), "p", None).is_none());
    assert!(normalize_item(&s("x"), "p", None).is_none());
}

#[test]
fn pick_string_skips_empty_and_non_strings() {
    let m = vec![("a".to_string(), s("")), ("b".to_string(), n(1)), ("c".to_string(), s("yes"))];
    assert_eq!(pick_string(&m, &["a", "b", "c"]).as_deref(), Some("yes"));
    assert_eq!(pick_string(&m, &["a", "b"]), None);
}

#[test]
fn items_descend_through_data_result_list() {
    let resp = obj(vec![("data", obj(vec![("list", Json::Array(vec![n(1), n(2)]))]))]);
    assert_eq!(extract_items(&resp).len(), 2);
    let resp = obj(vec![("result", Json::Array(vec![n(1)])), ("data", Json::Array(vec![]))]);
    assert_eq!(extract_items(&resp).len(), 0, "data is preferred over result");
    assert!(extract_items(&s("x")).is_empty());
    assert_eq!(extract_items(&Json::Array(vec![Json::Null])).len(), 1);
}

#[test]
fn pagination_reads_nested_metadata() {
    let resp = obj(vec![("data", obj(vec![("total", n(7)), ("hasMore", Json::Bool(true)), ("pageSize", n(5))]))]);
    let meta = pagination_meta(&resp, 3);
    assert_eq!(meta, Pagination { total: Some(7), has_next: Some(true), page_size: Some(5), length: Some(3) });
    assert!(is_last_page(&meta), "3 rows on a page of 5 is the last page");
    let meta = pagination_meta(&obj(vec![("hasNext", Json::Bool(false))]), 10);
    assert!(is_last_page(&meta));
    let meta = pagination_meta(&obj(vec![("total", n(20)), ("limit", n(10))]), 10);
    assert!(!is_last_page(&meta));
    let meta = pagination_meta(&obj(vec![("total", n(20)), ("length", n(20))]), 1);
    assert_eq!(meta.length, Some(20));
    assert!(is_last_page(&meta));
}

#[test]
fn directory_types() {
    assert!(can_have_children("DIR"));
    assert!(can_have_children("folder"));
    assert!(can_have_children("any"));
    assert!(!can_have_children("design"));
}

fn list_response(items: Vec<Json>, has_next: bool) -> Json {
    obj(vec![("data", obj(vec![("list", Json::Array(items)), ("hasNext", Json::Bool(has_next))]))])
}

fn item(id: &str, t: &str) -> Json {
    obj(vec![("id", s(id)), ("name", s(id)), ("type", s(t))])
}

#[test]
fn page_walk_lists_breadth_first_without_duplicates() {
    let ids = MoonvyUrl { project_id: "p".to_string(), dir_id: None, file_id: None };
    let mut walk = PageWalk::new(&ids, 10, 10);
    let r1 = walk.next_request().unwrap();
    assert_eq!(r1, (None, 0));
    walk.absorb(&list_response(vec![item("a", "design"), item("folder-1", "dir")], true));
    let r2 = walk.next_request().unwrap();
    assert_eq!(r2, (None, 1));
    walk.absorb(&list_response(vec![item("a", "design")], false));
    let r3 = walk.next_request().unwrap();
    assert_eq!(r3, (Some("folder-1".to_string()), 0));
    walk.absorb(&list_response(vec![item("b", "design")], false));
    assert!(walk.next_request().is_none());
    let rows = walk.into_rows();
    let got: Vec<&str> = rows.iter().map(|r| r.id.as_str()).collect();
    assert_eq!(got, vec!["a", "folder-1", "b"]);
}

#[test]
fn page_walk_respects_limit_and_max_pages() {
    let ids = MoonvyUrl { project_id: "p".to_string(), dir_id: Some("d".to_string()), file_id: None };
    let mut walk = PageWalk::new(&ids, 2, 10);
    assert_eq!(walk.next_request().unwrap(), (Some("d".to_string()), 0));
    walk.absorb(&list_response(vec![item("a", "design"), item("b", "design"), item("c", "design")], true));
    assert!(walk.next_request().is_none(), "limit reached");
    assert_eq!(walk.rows().len(), 2);

    let mut walk = PageWalk::new(&ids, 100, 2);
    let mut requests = 0;
    while let Some(_) = walk.next_request() {
        requests += 1;
        walk.absorb(&list_response(vec![item(&format!("x{requests}"), "design")], true));
    }
    assert_eq!(requests, 2, "at most max_pages requests");
    assert_eq!(walk.into_rows().len(), 2);
}

#[test]
fn page_walk_stops_scope_on_empty_page() {
    let ids = MoonvyUrl { project_id: "p".to_string(), dir_id: None, file_id: None };
    let mut walk = PageWalk::new(&ids, 10, 10);
    walk.next_request().unwrap();
    walk.absorb(&list_response(vec![], true));
    assert!(walk.next_request().is_none());
}

#[test]
fn lowercase_directory_types() {
    assert!(is_directory_type("directory"));
    assert!(is_directory_type("dir"));
    assert!(!is_directory_type("DIR"), "the type is taken as already lowercased");
    assert!(!is_directory_type("design"));
}

use openmoonvy_mcp_rs::api::api_error;
use openmoonvy_mcp_rs::api::{file_url_for, parse_moonvy_url};

#[test]
fn parse_moonvy_url_full() {
    let url = parse_moonvy_url("https://moonvy.com/project/p1/d1/f1").unwrap();
    assert_eq!(url.project_id, "p1");
    assert_eq!(url.dir_id.as_deref(), Some("d1"));
    assert_eq!(url.file_id.as_deref(), Some("f1"));
}

#[test]
fn parse_moonvy_url_dir_only() {
    let url = parse_moonvy_url("https://moonvy.com/project/p1/d1").unwrap();
    assert_eq!(url.project_id, "p1");
    assert_eq!(url.dir_id.as_deref(), Some("d1"));
    assert!(url.file_id.is_none());
}

#[test]
fn parse_moonvy_url_invalid() {
    assert!(parse_moonvy_url("https://evil.com/x").is_none());
    assert!(parse_moonvy_url("not-a-url").is_none());
}

#[test]
fn file_url_construction() {
    assert_eq!(file_url_for("p", Some("d"), "f"), "https://moonvy.com/project/p/d/f");
    assert_eq!(file_url_for("p", None, "f"), "https://moonvy.com/project/p/f");
}

#[test]
fn parse_moonvy_url_project_only_and_query() {
    let url = parse_moonvy_url("https://moonvy.com/project/p1").unwrap();
    assert_eq!(url.project_id, "p1");
    assert!(url.dir_id.is_none());
    assert!(url.file_id.is_none());
    // a trailing slash adds no segment; a bare "project" segment has no id
    let url = parse_moonvy_url("https://moonvy.com/project/p1/").unwrap();
    assert!(url.dir_id.is_none());
    assert!(parse_moonvy_url("https://moonvy.com/project/").is_none());
}

#[test]
fn file_url_parent_equal_to_id_is_dropped() {
    assert_eq!(file_url_for("p", Some("f"), "f"), "https://moonvy.com/project/p/f");
}

#[test]
fn file_url_parses_back_to_its_ids() {
    let url = parse_moonvy_url(&file_url_for("p1", Some("d1"), "f1")).unwrap();
    assert_eq!((url.project_id.as_str(), url.dir_id.as_deref(), url.file_id.as_deref()), ("p1", Some("d1"), Some("f1")));
    let url = parse_moonvy_url(&file_url_for("p1", Some("f1"), "f1")).unwrap();
    assert_eq!((url.dir_id.as_deref(), url.file_id.as_deref()), (Some("f1"), None));
    let url = parse_moonvy_url(&file_url_for("p1", None, "f1")).unwrap();
    assert_eq!((url.dir_id.as_deref(), url.file_id.as_deref()), (Some("f1"), None));
}

#[test]
fn api_error_messages() {
    assert_eq!(api_error("/x", 200, "200 OK", "{}"), None);
    assert_eq!(api_error("/x", 204, "204 No Content", ""), None);
    assert_eq!(
        api_error("/x", 401, "401 Unauthorized", "nope"),
        Some("[AUTH_REQUIRED] moonvy api /x returned 401. Call moonvy_login, or set MOONVY_TOKEN / run moonvy_set_token.".to_string())
    );
    let body: String = "界".repeat(250);
    let m = api_error("/x", 500, "500 Internal Server Error", &body).unwrap();
    assert_eq!(m, format!("moonvy api /x returned 500 Internal Server Error: {}", "界".repeat(200)));
    assert_eq!(api_error("/y", 404, "404 Not Found", "gone"), Some("moonvy api /y returned 404 Not Found: gone".to_string()));
}

use xlsx_searcher::access::{
    access_decision, asset_path, content_type, escape_applescript, file_action, FileAction, excel_script_macos, excel_script_windows,
    find_cookie_token, find_query_token, token_cookie, webview_user_agent, Access, WEBVIEW_UA_PREFIX,
};

const TOKEN: &str = "test-token";

#[test]
fn web_interface_off_blocks_external_browser() {
    let r = access_decision("/api/state", false, Some("Mozilla/5.0 (Macintosh)"), None, None, TOKEN);
    assert_eq!(r, Access::Forbidden("Web 界面已关闭".to_string()));
}

#[test]
fn web_interface_off_allows_webview_with_token() {
    let q = format!("token={}", TOKEN);
    let r = access_decision("/api/state", false, Some(WEBVIEW_UA_PREFIX), Some(&q), None, TOKEN);
    assert_eq!(r, Access::Allow { set_cookie: true });
}

#[test]
fn web_interface_off_blocks_webview_without_token() {
    let r = access_decision("/api/state", false, Some(WEBVIEW_UA_PREFIX), None, None, TOKEN);
    assert_eq!(r, Access::Forbidden("无权访问".to_string()));
}

#[test]
fn stale_cookie_is_refreshed_so_assets_still_load() {
    let q = format!("token={}", TOKEN);
    let r = access_decision("/", true, Some("Mozilla/5.0"), Some(&q), Some("xlsx_token=stale-old-token"), TOKEN);
    assert_eq!(r, Access::Allow { set_cookie: true });
    let set_cookie = token_cookie(TOKEN);
    assert!(set_cookie.contains("xlsx_token="), "cookie should be refreshed");
    let r = access_decision("/styles.css", true, Some("Mozilla/5.0"), None, Some(&set_cookie), TOKEN);
    assert_eq!(r, Access::Allow { set_cookie: false });
    assert!(content_type(&asset_path("/styles.css")).starts_with("text/css"));
}

#[test]
fn health_check_is_always_served() {
    assert_eq!(access_decision("/api/health", false, None, None, None, TOKEN), Access::Allow { set_cookie: false });
}

#[test]
fn tokens_in_query_and_cookie() {
    assert_eq!(find_query_token("a=1&token=xyz&b"), Some("xyz".to_string()));
    assert_eq!(find_query_token("token=a=b"), Some("a=b".to_string()));
    assert_eq!(find_query_token("tokenx=1&token"), None);
    assert_eq!(find_cookie_token("a=b; xlsx_token=T ; c=d"), Some("T".to_string()));
    assert_eq!(find_cookie_token("a=b"), None);
    assert_eq!(token_cookie("T"), "xlsx_token=T; Path=/");
}

#[test]
fn asset_types_and_paths() {
    assert_eq!(content_type("app.js"), "application/javascript");
    assert_eq!(content_type("index.html"), "text/html");
    assert_eq!(content_type("font.woff2"), "font/woff2");
    assert_eq!(content_type("data.bin"), "application/octet-stream");
    assert_eq!(asset_path("/"), "index.html");
    assert_eq!(asset_path("//assets/app.js"), "assets/app.js");
}

#[test]
fn excel_scripts_escape_their_arguments() {
    assert_eq!(escape_applescript("a\\b\"c"), "a\\\\b\\\"c");
    let mac = excel_script_macos("/x/\"q\".xlsx", "S1");
    assert!(mac.contains("open POSIX file \"/x/\\\"q\\\".xlsx\""));
    assert!(mac.ends_with("set active sheet to worksheet \"S1\" of workbook 1\nend tell"));
    let win = excel_script_windows("C:\\it's.xlsx", "S'1");
    assert!(win.contains("$wb = $excel.Workbooks.Open('C:\\it''s.xlsx')"));
    assert!(win.contains("$ws = $wb.Worksheets.Item('S''1')"));
}

#[test]
fn desktop_user_agent() {
    assert_eq!(webview_user_agent("1.2.0", "macos", "aarch64"), "XlsxSearcher-webview/1.2.0 (macos aarch64)");
}

#[test]
fn file_actions() {
    assert_eq!(file_action("open", Some("S1")), FileAction::Open(Some("S1".to_string())));
    assert_eq!(file_action("open", Some("")), FileAction::Open(None));
    assert_eq!(file_action("open", None), FileAction::Open(None));
    assert_eq!(file_action("locate", None), FileAction::Locate);
    assert_eq!(file_action("copy", Some("x")), FileAction::Copy);
    assert_eq!(file_action("delete", None), FileAction::Unknown("未知操作: delete".to_string()));
}

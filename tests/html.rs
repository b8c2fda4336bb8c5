use py_crude_resource_monitor::html::{bundle_into_page, export_html, reports_json, ExportError as HtmlExportError};

#[test]
fn bundle_lists_entries_in_order() {
    let entries = vec![
        ("\"a.json\"".to_string(), "\"QQ==\"".to_string()),
        ("\"global.json\"".to_string(), "\"Qg==\"".to_string()),
    ];
    assert_eq!(
        reports_json(&entries),
        "[{\"data\":\"QQ==\",\"name\":\"a.json\"},{\"data\":\"Qg==\",\"name\":\"global.json\"}]"
    );
    assert_eq!(reports_json(&vec![]), "[]");
}

#[test]
fn bundle_replaces_insertion_point() {
    let page = bundle_into_page("<script>const BUNDLED_REPORTS = []</script>", "[1]").unwrap();
    assert_eq!(page, "<script>const BUNDLED_REPORTS = [1];</script>");
}

#[test]
fn page_without_insertion_point_is_an_error() {
    assert!(matches!(
        bundle_into_page("<script>let x = 1</script>", "[]"),
        Err(HtmlExportError::InsertionPointMissing)
    ));
    assert!(matches!(
        export_html(&vec![("1.json".to_string(), b"{}\n".to_vec())], "<html></html>"),
        Err(HtmlExportError::InsertionPointMissing)
    ));
}

#[test]
fn html_report_embeds_compressed_logs() {
    let content = b"{\"index\":0}\n".to_vec();
    let page = export_html(
        &vec![("7.json".to_string(), content.clone())],
        "<script>const BUNDLED_REPORTS = []</script>",
    )
    .unwrap();
    let prefix = "<script>const BUNDLED_REPORTS = [{\"data\":\"";
    assert!(page.starts_with(prefix));
    assert!(page.ends_with("\",\"name\":\"7.json\"}];</script>"));
    let data = &page[prefix.len()..page.len() - "\",\"name\":\"7.json\"}];</script>".len()];
    // gzip streams start with 1f 8b 08, which base64 writes as "H4sI"
    assert!(data.starts_with("H4sI"));
    assert_ne!(data.as_bytes(), content.as_slice());
}

#[test]
fn html_names_are_json_escaped() {
    let page = export_html(
        &vec![("we\"ird.json".to_string(), vec![])],
        "const BUNDLED_REPORTS = []",
    )
    .unwrap();
    assert!(page.ends_with(",\"name\":\"we\\\"ird.json\"}];"));
}

#[test]
fn every_insertion_point_is_replaced() {
    let page = bundle_into_page("const BUNDLED_REPORTS = []|const BUNDLED_REPORTS = []", "[]").unwrap();
    assert_eq!(page, "const BUNDLED_REPORTS = [];|const BUNDLED_REPORTS = [];");
}

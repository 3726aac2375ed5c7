use rayback::api::{
    capture_url_of, endpoint, entries_from_rows, entry_from_row, parse_page, query_params,
    query_snapshots, select_host, Entry,
};
use rayback::error::MirrorError;
use rayback::schedule::Directive;
use rayback::weburl::WebUrl;

fn entry(timestamp: &str, url: &str) -> Entry {
    Entry { timestamp: timestamp.to_string(), original: WebUrl::parse(url).unwrap() }
}

fn row(fields: &[&str]) -> Vec<String> {
    fields.iter().map(|f| f.to_string()).collect()
}

#[test]
fn endpoint_is_the_cdx_search() {
    assert_eq!(endpoint(), "https://web.archive.org/cdx/search/cdx");
}

#[test]
fn query_params_are_complete() {
    let params = query_params("https://example.com/docs", 12);
    let expected = [
        ("url", "https://example.com/docs"),
        ("fl", "timestamp,original"),
        ("matchType", "prefix"),
        ("gzip", "false"),
        ("output", "json"),
        ("filter", "statuscode:200"),
        ("collapse", "digest"),
        ("page", "12"),
    ];
    assert_eq!(params.len(), expected.len());
    for (got, want) in params.iter().zip(expected.iter()) {
        assert_eq!(got.0, want.0);
        assert_eq!(got.1, want.1);
    }
}

#[test]
fn capture_url_asks_for_raw_bytes() {
    assert_eq!(
        capture_url_of("20210101000000", "https://example.com/docs/page"),
        "https://web.archive.org/web/20210101000000id_/https://example.com/docs/page"
    );
}

#[test]
fn empty_body_is_an_empty_page() {
    let query = WebUrl::parse("https://example.com/docs").unwrap();
    assert_eq!(parse_page(&query, ""), Ok(Vec::new()));
}

#[test]
fn header_only_is_an_empty_page() {
    let query = WebUrl::parse("https://example.com/docs").unwrap();
    assert_eq!(parse_page(&query, r#"[["timestamp","original"]]"#), Ok(Vec::new()));
    assert_eq!(parse_page(&query, "[]"), Ok(Vec::new()));
}

#[test]
fn page_rows_become_entries() {
    let query = WebUrl::parse("https://example.com/docs").unwrap();
    let body = r#"[["timestamp","original"],
        ["20200101000000","https://example.com/docs/page"],
        ["20210101000000","http://example.com:80/docs/a.png"]]"#;
    let entries = parse_page(&query, body).unwrap();
    assert_eq!(
        entries,
        vec![
            entry("20200101000000", "https://example.com/docs/page"),
            entry("20210101000000", "http://example.com/docs/a.png"),
        ]
    );
    assert_eq!(entries[1].original.as_str(), "http://example.com/docs/a.png");
}

#[test]
fn header_row_is_not_read() {
    let query = WebUrl::parse("https://example.com/docs").unwrap();
    // A header of any shape is dropped unread.
    let body = r#"[["a","b","c"],["20200101000000","https://example.com/docs/page"]]"#;
    assert_eq!(parse_page(&query, body).unwrap().len(), 1);
}

#[test]
fn other_hosts_are_dropped() {
    let query = WebUrl::parse("https://example.com/docs").unwrap();
    let body = r#"[["timestamp","original"],
        ["20200101000000","https://otherhost.com/x"],
        ["20200101000000","https://example.com/docs/page"],
        ["20200101000000","https://www.example.com/docs/page"]]"#;
    let entries = parse_page(&query, body).unwrap();
    assert_eq!(entries, vec![entry("20200101000000", "https://example.com/docs/page")]);
}

#[test]
fn malformed_json_is_refused() {
    let query = WebUrl::parse("https://example.com/docs").unwrap();
    assert_eq!(parse_page(&query, "{"), Err(MirrorError::MalformedJson));
    assert_eq!(parse_page(&query, " "), Err(MirrorError::MalformedJson));
    assert_eq!(parse_page(&query, r#"{"a":1}"#), Err(MirrorError::MalformedJson));
    assert_eq!(parse_page(&query, r#"[["a",1]]"#), Err(MirrorError::MalformedJson));
    assert_eq!(parse_page(&query, r#"[["a","b"]] x"#), Err(MirrorError::MalformedJson));
}

#[test]
fn wrong_row_shape_is_refused() {
    let query = WebUrl::parse("https://example.com/docs").unwrap();
    let three = r#"[["timestamp","original"],["1","https://example.com/a","x"]]"#;
    let one = r#"[["timestamp","original"],["1"]]"#;
    let none = r#"[["timestamp","original"],[]]"#;
    assert_eq!(parse_page(&query, three), Err(MirrorError::MalformedRow));
    assert_eq!(parse_page(&query, one), Err(MirrorError::MalformedRow));
    assert_eq!(parse_page(&query, none), Err(MirrorError::MalformedRow));
}

#[test]
fn wrong_row_of_other_host_is_still_refused() {
    let query = WebUrl::parse("https://example.com/docs").unwrap();
    let body = r#"[["timestamp","original"],["1","https://otherhost.com/a","x"]]"#;
    assert_eq!(parse_page(&query, body), Err(MirrorError::MalformedRow));
}

#[test]
fn unparsable_url_is_refused() {
    let query = WebUrl::parse("https://example.com/docs").unwrap();
    let body = r#"[["timestamp","original"],["1","not a url"]]"#;
    assert_eq!(parse_page(&query, body), Err(MirrorError::InvalidUrl));
}

#[test]
fn first_bad_row_decides_the_failure() {
    let query = WebUrl::parse("https://example.com/docs").unwrap();
    let url_first = r#"[["h"],["1","not a url"],["1"]]"#;
    let shape_first = r#"[["h"],["1"],["1","not a url"]]"#;
    assert_eq!(parse_page(&query, url_first), Err(MirrorError::InvalidUrl));
    assert_eq!(parse_page(&query, shape_first), Err(MirrorError::MalformedRow));
}

#[test]
fn entry_from_row_reads_two_fields() {
    assert_eq!(
        entry_from_row(&row(&["20200101000000", "https://example.com/a"])),
        Ok(entry("20200101000000", "https://example.com/a"))
    );
    assert_eq!(entry_from_row(&row(&["x"])), Err(MirrorError::MalformedRow));
    assert_eq!(entry_from_row(&row(&["x", "y"])), Err(MirrorError::InvalidUrl));
}

#[test]
fn entries_from_rows_skips_header_only() {
    let query = WebUrl::parse("https://example.com/").unwrap();
    let rows = vec![
        row(&["timestamp", "original"]),
        row(&["1", "https://example.com/a"]),
        row(&["2", "https://example.org/a"]),
        row(&["3", "https://example.com/b"]),
    ];
    assert_eq!(
        entries_from_rows(&query, &rows),
        Ok(vec![entry("1", "https://example.com/a"), entry("3", "https://example.com/b")])
    );
    assert_eq!(entries_from_rows(&query, &Vec::new()), Ok(Vec::new()));
}

#[test]
fn select_host_keeps_order() {
    let query = WebUrl::parse("https://example.com/").unwrap();
    let kept = select_host(
        &query,
        vec![
            entry("3", "https://example.com/c"),
            entry("1", "https://otherhost.com/x"),
            entry("2", "ftp://example.com/a"),
        ],
    );
    assert_eq!(kept, vec![entry("3", "https://example.com/c"), entry("2", "ftp://example.com/a")]);
}

#[test]
fn query_snapshots_refuses_bad_url() {
    assert_eq!(query_snapshots("docs/page", 3, 2).err(), Some(MirrorError::InvalidUrl));
}

#[test]
fn discovery_asks_pages_within_bound() {
    let mut stage = query_snapshots("https://example.com/docs", 3, 2).unwrap();
    assert_eq!(stage.poll(), Directive::Start(0));
    assert_eq!(stage.poll(), Directive::Start(1));
    assert_eq!(stage.poll(), Directive::Wait);
    assert_eq!(stage.params(1)[7].1, "1");
    assert_eq!(stage.params(1)[0].1, "https://example.com/docs");
    let body = r#"[["timestamp","original"],["20200101000000","https://example.com/docs/page"]]"#;
    assert_eq!(stage.receive(body), Ok(1));
    assert_eq!(stage.poll(), Directive::Start(2));
    assert_eq!(stage.poll(), Directive::Wait);
    assert_eq!(stage.receive(""), Ok(0));
    assert_eq!(stage.poll(), Directive::Wait);
    assert_eq!(stage.receive(body), Ok(1));
    assert_eq!(stage.poll(), Directive::Finished(true));
    let index = stage.into_index().unwrap();
    assert_eq!(index.len(), 1);
}

#[test]
fn discovery_stops_after_a_bad_page() {
    let mut stage = query_snapshots("https://example.com/docs", 5, 2).unwrap();
    assert_eq!(stage.poll(), Directive::Start(0));
    assert_eq!(stage.poll(), Directive::Start(1));
    assert_eq!(stage.receive("{"), Err(MirrorError::MalformedJson));
    // The page still in flight is waited for; no further page is asked for.
    assert_eq!(stage.poll(), Directive::Wait);
    assert_eq!(stage.receive(""), Ok(0));
    assert_eq!(stage.poll(), Directive::Finished(false));
    assert!(stage.into_index().is_none());
}

#[test]
fn discovery_stops_after_a_transport_failure() {
    let mut stage = query_snapshots("https://example.com/docs", 2, 1).unwrap();
    assert_eq!(stage.poll(), Directive::Start(0));
    stage.fail();
    assert_eq!(stage.poll(), Directive::Finished(false));
    assert!(stage.into_index().is_none());
}

#[test]
fn discovery_refuses_record_outside_prefix() {
    let mut stage = query_snapshots("https://example.com/docs/long", 1, 1).unwrap();
    assert_eq!(stage.poll(), Directive::Start(0));
    let body = r#"[["timestamp","original"],["20200101000000","https://example.com/d"]]"#;
    assert_eq!(stage.receive(body), Err(MirrorError::OutsidePrefix));
    assert_eq!(stage.poll(), Directive::Finished(false));
}

#[test]
fn unfinished_discovery_yields_no_index() {
    let mut stage = query_snapshots("https://example.com/docs", 2, 2).unwrap();
    assert_eq!(stage.poll(), Directive::Start(0));
    assert!(stage.into_index().is_none());
}

use rayback::error::MirrorError;
use rayback::weburl::WebUrl;

#[test]
fn parse_reads_host_and_path() {
    let url = WebUrl::parse("https://example.com/docs/page?x=1#top").unwrap();
    assert_eq!(url.as_str(), "https://example.com/docs/page?x=1#top");
    assert_eq!(url.host_str(), Some("example.com"));
    assert_eq!(url.path(), "/docs/page");
}

#[test]
fn parse_normalises() {
    let url = WebUrl::parse("HTTP://Example.COM:80/a/../b c").unwrap();
    assert_eq!(url.as_str(), "http://example.com/b%20c");
    assert_eq!(url.host_str(), Some("example.com"));
    assert_eq!(url.path(), "/b%20c");
}

#[test]
fn parse_without_path_has_root_path() {
    let url = WebUrl::parse("https://example.com").unwrap();
    assert_eq!(url.path(), "/");
    assert_eq!(url.as_str(), "https://example.com/");
}

#[test]
fn parse_without_host() {
    let url = WebUrl::parse("data:text/plain,Stuff").unwrap();
    assert_eq!(url.host_str(), None);
    assert_eq!(url.path(), "text/plain,Stuff");
}

#[test]
fn parse_rejects_relative_and_garbage() {
    assert_eq!(WebUrl::parse("docs/page").unwrap_err(), MirrorError::InvalidUrl);
    assert_eq!(WebUrl::parse("").unwrap_err(), MirrorError::InvalidUrl);
    assert_eq!(WebUrl::parse("https://").unwrap_err(), MirrorError::InvalidUrl);
}

#[test]
fn same_host_ignores_scheme_and_port() {
    let a = WebUrl::parse("https://example.com/docs").unwrap();
    let b = WebUrl::parse("http://example.com:8080/other").unwrap();
    let c = WebUrl::parse("https://otherhost.com/x").unwrap();
    let d = WebUrl::parse("data:a").unwrap();
    let e = WebUrl::parse("mailto:someone").unwrap();
    assert!(a.same_host(&b));
    assert!(!a.same_host(&c));
    assert!(!a.same_host(&d));
    assert!(d.same_host(&e));
}

#[test]
fn same_compares_by_text_alone() {
    let parsed = WebUrl::parse("https://example.com/docs").unwrap();
    let by_hand = WebUrl {
        href: "https://example.com/docs".to_string(),
        host: None,
        path: "/elsewhere".to_string(),
    };
    assert!(parsed.same(&by_hand));
    assert!(by_hand.same(&parsed));
}

#[test]
fn same_compares_whole_urls() {
    let a = WebUrl::parse("https://example.com/docs").unwrap();
    let b = WebUrl::parse("https://example.com/docs").unwrap();
    let c = WebUrl::parse("https://example.com/docs?x").unwrap();
    assert!(a.same(&b));
    assert!(a.same(&a.clone()));
    assert!(!a.same(&c));
    assert_eq!(a, b);
}

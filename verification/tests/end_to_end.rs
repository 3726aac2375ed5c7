use rayback::api::query_snapshots;
use rayback::downloader::DownloadJob;
use rayback::schedule::Directive;

#[test]
fn end_to_end_newest_capture_of_query_host() {
    let mut stage = query_snapshots("https://example.com/docs", 1, 10).unwrap();
    assert_eq!(stage.poll(), Directive::Start(0));
    let body = r#"[["timestamp","original"],
        ["20200101000000","https://example.com/docs/page"],
        ["20210101000000","https://example.com/docs/page"],
        ["20220101000000","https://otherhost.com/x"]]"#;
    assert_eq!(stage.receive(body), Ok(2));
    assert_eq!(stage.poll(), Directive::Finished(true));
    let index = stage.into_index().unwrap();
    let dirs: Vec<String> = Vec::new();
    let plan = index.plan(&dirs);
    assert_eq!(
        plan.jobs(),
        &vec![DownloadJob {
            rel_path: "/page/index.html".to_string(),
            url: "https://web.archive.org/web/20210101000000id_/https://example.com/docs/page"
                .to_string(),
        }]
    );
    assert_eq!(plan.job(0).unwrap().destination("mirror"), "mirror/page/index.html");
}

#[test]
fn end_to_end_pages_in_any_order() {
    let pages = [
        r#"[["timestamp","original"],["20200101000000","https://example.com/docs/a.png"]]"#,
        "",
        r#"[["timestamp","original"],["20210101000000","https://example.com/docs/a.png"],
            ["20200101000000","https://example.com/docs/"]]"#,
    ];
    let orders = [[0, 1, 2], [0, 2, 1], [1, 0, 2], [1, 2, 0], [2, 0, 1], [2, 1, 0]];
    let mut plans = Vec::new();
    for order in orders.iter() {
        let mut stage = query_snapshots("https://example.com/docs", 3, 3).unwrap();
        for _ in 0..3 {
            assert!(matches!(stage.poll(), Directive::Start(_)));
        }
        for page in order.iter() {
            stage.receive(pages[*page]).unwrap();
        }
        assert_eq!(stage.poll(), Directive::Finished(true));
        plans.push(stage.into_index().unwrap().plan(&Vec::new()));
    }
    for plan in plans.iter() {
        assert_eq!(plan, &plans[0]);
    }
    assert_eq!(plans[0].len(), 2);
    assert_eq!(plans[0].job(0).unwrap().rel_path, "/index.html");
    assert_eq!(
        plans[0].job(1).unwrap().url,
        "https://web.archive.org/web/20210101000000id_/https://example.com/docs/a.png"
    );
}

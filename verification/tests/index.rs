use rayback::api::Entry;
use rayback::downloader::DownloadJob;
use rayback::error::MirrorError;
use rayback::index::ResourceIndex;
use rayback::weburl::WebUrl;

fn entry(timestamp: &str, url: &str) -> Entry {
    Entry { timestamp: timestamp.to_string(), original: WebUrl::parse(url).unwrap() }
}

fn index_for(query: &str) -> ResourceIndex {
    ResourceIndex::new(WebUrl::parse(query).unwrap())
}

fn job(rel_path: &str, url: &str) -> DownloadJob {
    DownloadJob { rel_path: rel_path.to_string(), url: url.to_string() }
}

#[test]
fn new_index_is_empty() {
    let index = index_for("https://example.com/docs");
    assert_eq!(index.len(), 0);
    assert!(index.get(0).is_none());
    assert_eq!(index.url().as_str(), "https://example.com/docs");
    assert_eq!(index.plan(&Vec::new()).len(), 0);
}

#[test]
fn newer_capture_replaces_older() {
    let mut index = index_for("https://example.com/docs");
    index.insert(entry("20200101000000", "https://example.com/docs/page")).unwrap();
    index.insert(entry("20210101000000", "https://example.com/docs/page")).unwrap();
    assert_eq!(index.len(), 1);
    assert_eq!(index.get(0).unwrap().timestamp, "20210101000000");
}

#[test]
fn older_and_equal_captures_are_ignored() {
    let mut index = index_for("https://example.com/docs");
    index.insert(entry("20210101000000", "https://example.com/docs/page")).unwrap();
    index.insert(entry("20200101000000", "https://example.com/docs/page")).unwrap();
    index.insert(entry("20210101000000", "https://example.com/docs/page")).unwrap();
    assert_eq!(index.len(), 1);
    assert_eq!(index.get(0).unwrap().timestamp, "20210101000000");
}

#[test]
fn distinct_urls_get_distinct_slots() {
    let mut index = index_for("https://example.com/docs");
    index.insert(entry("1", "https://example.com/docs/a")).unwrap();
    index.insert(entry("1", "https://example.com/docs/a?x=1")).unwrap();
    index.insert(entry("1", "https://example.com/docs/b")).unwrap();
    assert_eq!(index.len(), 3);
    assert_eq!(index.get(1).unwrap().original.as_str(), "https://example.com/docs/a?x=1");
}

#[test]
fn one_url_text_is_one_resource() {
    let mut index = index_for("https://example.com/docs");
    let by_hand = |timestamp: &str, path: &str| Entry {
        timestamp: timestamp.to_string(),
        original: WebUrl {
            href: "https://example.com/docs/a".to_string(),
            host: Some("example.com".to_string()),
            path: path.to_string(),
        },
    };
    index.insert(by_hand("1", "/docs/a")).unwrap();
    index.insert(by_hand("2", "/docs/b.png")).unwrap();
    index.insert(by_hand("2", "/docs/c.png")).unwrap();
    assert_eq!(index.len(), 1);
    assert_eq!(index.get(0).unwrap().timestamp, "2");
    assert_eq!(index.candidates(), vec!["/b.png".to_string()]);
}

#[test]
fn short_path_is_refused() {
    let mut index = index_for("https://example.com/docs/long");
    index.insert(entry("1", "https://example.com/docs/long/a")).unwrap();
    assert_eq!(
        index.insert(entry("2", "https://example.com/d")),
        Err(MirrorError::OutsidePrefix)
    );
    assert_eq!(index.len(), 1);
}

#[test]
fn merge_page_stops_at_refused_record() {
    let mut index = index_for("https://example.com/docs");
    let page = vec![
        entry("1", "https://example.com/docs/a"),
        entry("1", "https://example.com/"),
        entry("1", "https://example.com/docs/b"),
    ];
    assert_eq!(index.merge_page(page), Err(MirrorError::OutsidePrefix));
    assert_eq!(index.len(), 1);
}

#[test]
fn candidates_are_paths_past_the_query() {
    let mut index = index_for("https://example.com/docs");
    index
        .merge_page(vec![
            entry("1", "https://example.com/docs/a.png"),
            entry("1", "https://example.com/docs"),
            entry("1", "https://example.com/docs/b/"),
        ])
        .unwrap();
    assert_eq!(index.candidates(), vec!["/a.png".to_string(), String::new(), "/b/".to_string()]);
}

#[test]
fn plan_is_sorted_by_source_url() {
    let mut index = index_for("https://example.com/docs");
    index
        .merge_page(vec![
            entry("20210101000000", "https://example.com/docs/z.png"),
            entry("20200101000000", "https://example.com/docs/m"),
            entry("20190101000000", "https://example.com/docs/"),
            entry("20200101000000", "https://example.com/docs/a.css"),
        ])
        .unwrap();
    let plan = index.plan(&Vec::new());
    assert_eq!(
        plan.jobs(),
        &vec![
            job("/index.html", "https://web.archive.org/web/20190101000000id_/https://example.com/docs/"),
            job("/a.css", "https://web.archive.org/web/20200101000000id_/https://example.com/docs/a.css"),
            job("/m/index.html", "https://web.archive.org/web/20200101000000id_/https://example.com/docs/m"),
            job("/z.png", "https://web.archive.org/web/20210101000000id_/https://example.com/docs/z.png"),
        ]
    );
}

#[test]
fn plan_takes_listed_directories_for_directories() {
    let mut index = index_for("https://example.com/docs");
    index
        .merge_page(vec![
            entry("1", "https://example.com/docs/a.png"),
            entry("1", "https://example.com/docs/b.png"),
        ])
        .unwrap();
    let plan = index.plan(&vec!["/b.png".to_string()]);
    assert_eq!(plan.job(0).unwrap().rel_path, "/a.png");
    assert_eq!(plan.job(1).unwrap().rel_path, "/b.png/index.html");
}

#[test]
fn same_path_with_other_query_string_is_another_job() {
    let mut index = index_for("https://example.com/docs");
    index
        .merge_page(vec![
            entry("1", "https://example.com/docs/a?x=2"),
            entry("1", "https://example.com/docs/a?x=1"),
        ])
        .unwrap();
    let plan = index.plan(&Vec::new());
    assert_eq!(plan.len(), 2);
    assert_eq!(plan.job(0).unwrap().rel_path, "/a/index.html");
    assert_eq!(plan.job(1).unwrap().rel_path, "/a/index.html");
    assert!(plan.job(0).unwrap().url.ends_with("x=1"));
}

#[test]
fn arrival_order_does_not_matter() {
    let entries = vec![
        entry("20200101000000", "https://example.com/docs/page"),
        entry("20210101000000", "https://example.com/docs/page"),
        entry("20190101000000", "https://example.com/docs/page"),
        entry("20200101000000", "https://example.com/docs/a.png"),
        entry("20200101000001", "https://example.com/docs/a.png"),
        entry("20200101000000", "https://example.com/docs/b/c.css"),
        entry("20200101000000", "https://example.com/docs/"),
    ];
    let mut reference: Option<Vec<DownloadJob>> = None;
    // Rotations and reversals of the arrival order, split into pages at every point.
    for shift in 0..entries.len() {
        for reversed in [false, true] {
            for split in 0..=entries.len() {
                let mut order: Vec<Entry> = entries.clone();
                order.rotate_left(shift);
                if reversed {
                    order.reverse();
                }
                let second = order.split_off(split);
                let mut index = index_for("https://example.com/docs");
                index.merge_page(order).unwrap();
                index.merge_page(second).unwrap();
                let plan = index.plan(&Vec::new());
                assert_eq!(plan.len(), 4);
                match &reference {
                    None => reference = Some(plan.jobs().clone()),
                    Some(jobs) => assert_eq!(plan.jobs(), jobs),
                }
            }
        }
    }
    let jobs = reference.unwrap();
    assert_eq!(jobs[3].url, "https://web.archive.org/web/20210101000000id_/https://example.com/docs/page");
    assert_eq!(jobs[1].url, "https://web.archive.org/web/20200101000000id_/https://example.com/docs/b/c.css");
    assert_eq!(jobs[2].url, "https://web.archive.org/web/20200101000001id_/https://example.com/docs/a.png");
}

#[test]
fn repeated_discovery_gives_the_same_plan() {
    let build = || {
        let mut index = index_for("https://example.com/docs");
        index
            .merge_page(vec![
                entry("2", "https://example.com/docs/b"),
                entry("1", "https://example.com/docs/a"),
                entry("3", "https://example.com/docs/b"),
            ])
            .unwrap();
        index.plan(&Vec::new())
    };
    assert_eq!(build(), build());
}

use rayback::paths::{destination, relative_path, sanitize_path, temp_path};

#[test]
fn path_without_extension_gets_index() {
    assert_eq!(sanitize_path("/a/b".to_string(), false), "/a/b/index.html");
}

#[test]
fn empty_path_gets_index() {
    assert_eq!(sanitize_path(String::new(), false), "index.html");
}

#[test]
fn path_with_extension_is_kept() {
    assert_eq!(sanitize_path("/a/b.png".to_string(), false), "/a/b.png");
}

#[test]
fn directory_on_disk_gets_index() {
    assert_eq!(sanitize_path("/a/b.png".to_string(), true), "/a/b.png/index.html");
    assert_eq!(sanitize_path("/a/b".to_string(), true), "/a/b/index.html");
}

#[test]
fn trailing_separator_is_not_doubled() {
    assert_eq!(sanitize_path("/a/b/".to_string(), false), "/a/b/index.html");
    assert_eq!(sanitize_path("/".to_string(), false), "/index.html");
}

#[test]
fn final_component_ignores_trailing_separators_and_dots() {
    // The final component is `b.png`, which has an extension.
    assert_eq!(sanitize_path("/a/b.png/".to_string(), false), "/a/b.png/");
    assert_eq!(sanitize_path("/a/b.png/.".to_string(), false), "/a/b.png/.");
    assert_eq!(sanitize_path("/a/b/.".to_string(), false), "/a/b/./index.html");
}

#[test]
fn dot_names_have_no_extension() {
    assert_eq!(sanitize_path("/a/.hidden".to_string(), false), "/a/.hidden/index.html");
    assert_eq!(sanitize_path("/a/..".to_string(), false), "/a/../index.html");
    assert_eq!(sanitize_path(".".to_string(), false), "./index.html");
    assert_eq!(sanitize_path("/a/.hidden.txt".to_string(), false), "/a/.hidden.txt");
    assert_eq!(sanitize_path("/a/b.".to_string(), false), "/a/b.");
    assert_eq!(sanitize_path("...".to_string(), false), "...");
}

#[test]
fn dot_in_directory_is_no_extension() {
    assert_eq!(sanitize_path("/v1.2/page".to_string(), false), "/v1.2/page/index.html");
}

#[test]
fn sanitize_path_agrees_with_std_paths() {
    let samples = [
        "", "/", "a", "/a/b", "/a/b.png", "/a/b/", "/a/b.png/", "a/.", "a/..", ".", "..", "./",
        "/.", "/a/.b", "/a/.b.c", "a.", "...", "/x/y.tar.gz", "//", "/a//b", "a/./b.c/./",
    ];
    for s in samples.iter() {
        let mut expected = std::path::PathBuf::from(s);
        if s.is_empty() || expected.file_name() == expected.file_stem() {
            expected.push("index.html");
        }
        assert_eq!(
            sanitize_path(s.to_string(), false),
            expected.to_str().unwrap(),
            "for {:?}",
            s
        );
    }
}

#[test]
fn temp_path_appends_extension() {
    assert_eq!(temp_path("out/a/index.html"), "out/a/index.html.raybackdl");
    assert_eq!(temp_path("out/a/b"), "out/a/b.raybackdl");
    assert_eq!(temp_path("out/a/b.tar.gz"), "out/a/b.tar.gz.raybackdl");
    assert_eq!(temp_path("out/.hidden"), "out/.hidden.raybackdl");
}

#[test]
fn temp_path_is_never_the_destination() {
    assert_eq!(temp_path("o/x.raybackdl"), "o/x.raybackdl.raybackdl");
    assert_eq!(temp_path(""), ".raybackdl");
    assert_eq!(temp_path("/"), "/.raybackdl");
    assert_eq!(temp_path("a/.."), "a/...raybackdl");
}

#[test]
fn temp_paths_differ_where_destinations_do() {
    let samples = [
        "", "/", "a", "/a/b", "/a/b.png", "/a/b.svg", "/a/b/", "/a/b.png/", "a/.", "a/..", ".",
        "..", "/a/.b", "/a/.b.c", "a.", "...", "/x/y.tar.gz", "out/page/index.html", "o/a.b",
        "o/a.c", "o/x.raybackdl", "o/x",
    ];
    for a in samples.iter() {
        assert_ne!(temp_path(a), *a);
        assert_eq!(temp_path(a), format!("{}.raybackdl", a));
        for b in samples.iter() {
            if a != b {
                assert_ne!(temp_path(a), temp_path(b), "for {:?} and {:?}", a, b);
            }
        }
    }
}

#[test]
fn destination_is_under_out_dir() {
    assert_eq!(destination("out", "/page/index.html"), "out/page/index.html");
    assert_eq!(destination("out", "index.html"), "out/index.html");
    assert_eq!(destination("out/", "index.html"), "out/index.html");
    assert_eq!(destination("out/", "/a.png"), "out//a.png");
    assert_eq!(destination("", "index.html"), "index.html");
    assert_eq!(destination("out", ""), "out/");
}

#[test]
fn relative_path_strips_by_length() {
    assert_eq!(relative_path("/docs/page", "/docs"), Some("/page".to_string()));
    assert_eq!(relative_path("/docs", "/docs"), Some(String::new()));
    assert_eq!(relative_path("/other/page", "/docs"), Some("r/page".to_string()));
    assert_eq!(relative_path("/do", "/docs"), None);
}

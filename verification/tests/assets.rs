use include_dir::{Dir, DirEntry, File};
use movie_search::assets::{content_type_for_path, join_segments, lookup};
use movie_search::routes::{route_movie_request, MovieRoute};

fn leak(entries: Vec<DirEntry<'static>>) -> &'static [DirEntry<'static>] {
    Box::leak(entries.into_boxed_slice())
}

const INDEX: &[u8] = b"<html><head><title>movie-search-compare</title>\
<link rel=\"stylesheet\" href=\"/assets/index-1a2b.css\"></head>\
<body><h1>Runtime comparison</h1></body></html>";

/// A built front end as the servers embed it.
fn built_frontend() -> &'static Dir<'static> {
    let demo = leak(vec![DirEntry::File(File::new("demo/index.html", INDEX))]);
    let benchmarks = leak(vec![DirEntry::File(File::new(
        "benchmarks/index.html",
        b"<html><title>movie-search-benchmarks</title></html>",
    ))]);
    let assets = leak(vec![DirEntry::File(File::new("assets/index-1a2b.css", b"body{}"))]);
    let entries = leak(vec![
        DirEntry::File(File::new("index.html", INDEX)),
        DirEntry::Dir(Dir::new("demo", demo)),
        DirEntry::Dir(Dir::new("benchmarks", benchmarks)),
        DirEntry::Dir(Dir::new("assets", assets)),
    ]);
    Box::leak(Box::new(Dir::new("", entries)))
}

/// What the movie search service answers to a `GET` of `path`: the status
/// and, for a page or file of the front end, its text.
fn get(path: &str) -> (u16, String) {
    match route_movie_request("GET", path, "") {
        MovieRoute::Static(segments) => {
            let parts: Vec<&str> = segments.iter().map(|s| s.as_str()).collect();
            match lookup(built_frontend(), &parts) {
                Some(file) => (200, String::from_utf8_lossy(file.contents).into_owned()),
                None => (404, String::new()),
            }
        }
        MovieRoute::NotFound(_) => (404, String::new()),
        MovieRoute::MethodNotAllowed(_) => (405, String::new()),
        _ => (200, String::new()),
    }
}

#[test]
fn app_is_served_at_root() {
    let (status, body) = get("/");
    assert_eq!(status, 200);
    assert!(body.contains("movie-search-compare"));
    assert!(body.contains("Runtime comparison"));
}

#[test]
fn demo_alias_serves_compare_app() {
    let (status, body) = get("/demo");
    assert_eq!(status, 200);
    assert!(body.contains("movie-search-compare"));
}

#[test]
fn benchmarks_page_is_served() {
    let (status, body) = get("/benchmarks");
    assert_eq!(status, 200);
    assert!(body.contains("movie-search-benchmarks"));
}

#[test]
fn assets_are_served_under_assets_prefix() {
    let (_, root) = get("/");
    let asset_path = root
        .split("href=\"/assets/")
        .nth(1)
        .and_then(|rest| rest.split('"').next())
        .expect("built index should reference /assets/");
    let (status, _) = get(&format!("/assets/{asset_path}"));
    assert_eq!(status, 200);
}

#[test]
fn unknown_route_returns_not_found() {
    let (status, _) = get("/missing");
    assert_eq!(status, 404);
}

fn frontend() -> &'static Dir<'static> {
    let demo = leak(vec![DirEntry::File(File::new("demo/index.html", b"<html>demo</html>"))]);
    let benchmarks = leak(vec![DirEntry::File(File::new(
        "benchmarks/index.html",
        b"<html>movie-search-benchmarks</html>",
    ))]);
    let assets = leak(vec![DirEntry::File(File::new("assets/app.js", b"console.log(1);"))]);
    let data = leak(vec![DirEntry::File(File::new("benchmark-data/runs.json", b"[]"))]);
    let entries = leak(vec![
        DirEntry::File(File::new("index.html", b"<html>app</html>")),
        DirEntry::Dir(Dir::new("demo", demo)),
        DirEntry::Dir(Dir::new("benchmarks", benchmarks)),
        DirEntry::Dir(Dir::new("assets", assets)),
        DirEntry::Dir(Dir::new("benchmark-data", data)),
    ]);
    Box::leak(Box::new(Dir::new("", entries)))
}

#[test]
fn serves_app_and_demo_entrypoints() {
    let dir = frontend();
    assert!(lookup(dir, &[]).is_some());
    assert!(lookup(dir, &["demo"]).is_some());
}

#[test]
fn benchmarks_page_and_data_are_served() {
    let dir = frontend();
    let page = lookup(dir, &["benchmarks"]).unwrap();
    assert_eq!(page.contents, b"<html>movie-search-benchmarks</html>");
    assert_eq!(page.content_type, "text/html; charset=utf-8");
    let data = lookup(dir, &["benchmark-data", "runs.json"]).unwrap();
    assert_eq!(data.contents, b"[]");
    assert_eq!(data.content_type, "application/json; charset=utf-8");
    assert!(lookup(dir, &["benchmark-data"]).is_none());
}

#[test]
fn root_is_html_and_unknown_routes_are_absent() {
    let dir = frontend();
    let root = lookup(dir, &[]).unwrap();
    assert_eq!(root.contents, b"<html>app</html>");
    assert_eq!(root.content_type, "text/html; charset=utf-8");
    assert!(lookup(dir, &["missing"]).is_none());
    assert!(lookup(dir, &["assets"]).is_none());
    assert!(lookup(dir, &["demo", "x"]).is_none());
}

#[test]
fn asset_paths_join_the_rest_of_the_segments() {
    let dir = frontend();
    assert_eq!(join_segments(&["a", "b", "c.js"]), "a/b/c.js");
    let file = lookup(dir, &["assets", "app.js"]).unwrap();
    assert_eq!(file.contents, b"console.log(1);");
    assert_eq!(file.content_type, "application/javascript; charset=utf-8");
    assert!(lookup(dir, &["assets", "missing.js"]).is_none());
}

#[test]
fn content_types_follow_extensions() {
    assert_eq!(content_type_for_path("a/b.css"), "text/css; charset=utf-8");
    assert_eq!(content_type_for_path("logo.svg"), "image/svg+xml");
    assert_eq!(content_type_for_path("p.png"), "image/png");
    assert_eq!(content_type_for_path("favicon.ico"), "image/x-icon");
    assert_eq!(content_type_for_path("data.json"), "application/json; charset=utf-8");
    assert_eq!(content_type_for_path("f.woff2"), "font/woff2");
    assert_eq!(content_type_for_path("blob.bin"), "application/octet-stream");
}

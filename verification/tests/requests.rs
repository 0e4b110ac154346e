use vnstat_dashboard::http::{
    app_log_reply, asset_content_type, asset_paths, asset_reply, content_type_name,
    response_headers, route_request, vnstat_reply, vnstat_text_reply, ContentType, Reply, Request,
};
use vnstat_dashboard::paths::{app_log_path, app_log_temporary_path, get_base_dir, join_path};
use vnstat_dashboard::store::{save_steps, FileStep};

fn route(url: &str) -> String {
    match route_request(url) {
        Request::VnstatData => "data".to_string(),
        Request::AppData(d) => format!("app {}", d),
        Request::Asset(n) => format!("asset {}", n),
    }
}

fn headers(kind: ContentType) -> Vec<(String, String)> {
    response_headers(kind).into_iter().map(|h| (h.field, h.value)).collect()
}

fn content(r: Reply) -> (String, Vec<u8>) {
    match r {
        Reply::Content { status, headers, body } => {
            assert_eq!(status, 200);
            assert_eq!(headers.len(), 3);
            assert_eq!(headers[1].field, "Cache-Control");
            assert_eq!(headers[1].value, "no-cache, no-store, must-revalidate");
            assert_eq!(headers[2].field, "Access-Control-Allow-Origin");
            assert_eq!(headers[2].value, "*");
            assert_eq!(headers[0].field, "Content-Type");
            (headers[0].value.clone(), body)
        }
        Reply::NotFound { .. } => panic!("no content"),
    }
}

#[test]
fn interface_requests() {
    assert_eq!(route("/api/data"), "data");
    assert_eq!(route("/api/data?x=1"), "data");
    assert_eq!(route("/api/database"), "data");
    assert_eq!(route("/api/app_data"), "app ");
    assert_eq!(route("/api/app_data?date=2026-11-16"), "app 2026-11-16");
    assert_eq!(route("/api/app_data?x=1&date=2026-11-16&y=2"), "app 2026-11-16");
    assert_eq!(route("/api/app_data?update=5&date=6"), "app 5");
    assert_eq!(route("/api/app_data?date=&x=1"), "app ");
}

#[test]
fn asset_requests() {
    assert_eq!(route("/"), "asset index.html");
    assert_eq!(route("/index.html"), "asset index.html");
    assert_eq!(route("/?v=1"), "asset index.html");
    assert_eq!(route("/chart.umd.js?v=2?3"), "asset chart.umd.js");
    assert_eq!(route("///css/a.css"), "asset css/a.css");
    assert_eq!(route("//"), "asset ");
    assert_eq!(route(""), "asset ");
    assert_eq!(route("/api"), "asset api");
}

#[test]
fn kinds_of_content() {
    assert_eq!(asset_content_type("chart.umd.js"), ContentType::JavaScript);
    assert_eq!(asset_content_type("style.css"), ContentType::Css);
    assert_eq!(asset_content_type("index.html"), ContentType::Html);
    assert_eq!(asset_content_type("js"), ContentType::Html);
    assert_eq!(content_type_name(ContentType::Json), "application/json");
    assert_eq!(content_type_name(ContentType::JavaScript), "application/javascript");
    assert_eq!(content_type_name(ContentType::Css), "text/css");
    assert_eq!(content_type_name(ContentType::Html), "text/html; charset=utf-8");
}

#[test]
fn every_content_gets_its_headers() {
    for kind in [ContentType::Json, ContentType::JavaScript, ContentType::Css, ContentType::Html] {
        let want = vec![
            ("Content-Type".to_string(), content_type_name(kind).to_string()),
            ("Cache-Control".to_string(), "no-cache, no-store, must-revalidate".to_string()),
            ("Access-Control-Allow-Origin".to_string(), "*".to_string()),
        ];
        assert_eq!(headers(kind), want);
    }
}

#[test]
fn header_lines_parse_as_stated() {
    let parts = |line: &str| {
        line.parse::<tiny_http::Header>()
            .ok()
            .map(|h| (h.field.as_str().as_str().to_string(), h.value.as_str().to_string()))
    };
    assert_eq!(parts("A:  b: c \t"), Some(("A".to_string(), "b: c".to_string())));
    assert_eq!(parts("A:\u{3000}b"), Some(("A".to_string(), "b".to_string())));
    assert_eq!(parts(":"), Some((String::new(), String::new())));
    assert_eq!(parts("A b: c"), None);
    assert_eq!(parts("A c"), None);
    assert_eq!(parts("A: \u{e9}"), None);
    assert_eq!(parts("\u{e9}: a"), None);
}

#[test]
fn replies_in_json() {
    let (kind, body) = content(vnstat_reply(Some(&b"{\"vnstatversion\":\"2.12\"}"[..])));
    assert_eq!(kind, "application/json");
    assert_eq!(body, b"{\"vnstatversion\":\"2.12\"}".to_vec());
    let (kind, body) = content(vnstat_reply(None));
    assert_eq!(kind, "application/json");
    assert_eq!(body, b"{\"error\":\"Failed to execute vnstat\"}".to_vec());
    assert_eq!(content(vnstat_reply(Some(&b"{\"\xff\"}"[..]))).1, "{\"\u{fffd}\"}".as_bytes());
    let text = "{\"caf\u{e9}\":1}";
    assert_eq!(content(vnstat_reply(Some(text.as_bytes()))).1, text.as_bytes());
    assert_eq!(content(vnstat_text_reply(Some(text))).1, text.as_bytes());
    assert_eq!(content(vnstat_text_reply(None)).1, content(vnstat_reply(None)).1);
    let (kind, body) = content(app_log_reply(Some("{\"app\":\"caf\u{e9}\"}")));
    assert_eq!(kind, "application/json");
    assert_eq!(body, "{\"app\":\"caf\u{e9}\"}".as_bytes().to_vec());
    assert_eq!(content(app_log_reply(None)).1, b"{}".to_vec());
}

#[test]
fn replies_with_files() {
    let page = || b"page".to_vec();
    let chart = || b"chart".to_vec();
    let (kind, body) = content(asset_reply("a.css", Some(b"x".to_vec()), page(), chart()));
    assert_eq!((kind.as_str(), body), ("text/css", b"x".to_vec()));
    let (kind, body) = content(asset_reply("index.html", Some(b"own".to_vec()), page(), chart()));
    assert_eq!((kind.as_str(), body), ("text/html; charset=utf-8", b"own".to_vec()));
    let (kind, body) = content(asset_reply("index.html", None, page(), chart()));
    assert_eq!((kind.as_str(), body), ("text/html; charset=utf-8", page()));
    let (kind, body) = content(asset_reply("chart.umd.js", None, page(), chart()));
    assert_eq!((kind.as_str(), body), ("application/javascript", chart()));
    match asset_reply("other.js", None, page(), chart()) {
        Reply::NotFound { status, text } => assert_eq!((status, text.as_str()), (404, "404")),
        Reply::Content { .. } => panic!("content"),
    }
}

#[test]
fn files_are_looked_for_in_order() {
    assert_eq!(
        asset_paths("/home/u", "a.js"),
        vec![
            "/home/u/2026/vnstat-dashboard/a.js",
            "a.js",
            "/home/u/.local/share/vnstat-rust-gui/a.js",
            "/home/u/.local/share/vnstat-dashboard/a.js",
        ]
    );
    assert_eq!(asset_paths("", "")[0], "2026/vnstat-dashboard/");
}

#[test]
fn paths_join_as_in_std() {
    for base in ["", "/", "/home/u", "/home/u/", "a"] {
        for below in ["", "b", "b/c", ".json", "/", "/b", "//b/c/"] {
            let want = std::path::PathBuf::from(base).join(below);
            assert_eq!(join_path(base, below), want.to_str().unwrap());
        }
    }
}

#[test]
fn where_logs_are_kept() {
    assert_eq!(get_base_dir(Some("/home/u")), "/home/u/.local/share/vnstat-dashboard");
    assert_eq!(get_base_dir(Some("")), ".local/share/vnstat-dashboard");
    assert_eq!(get_base_dir(None), "/tmp/.local/share/vnstat-dashboard");
    assert_eq!(app_log_path("/d", "2026-11-16"), "/d/net_apps_2026-11-16.json");
    assert_eq!(app_log_temporary_path("/d", "2026-11-16"), "/d/net_apps_2026-11-16.tmp");
}

#[test]
fn temporary_paths_agree_with_std() {
    for date in ["2026-11-16", "", "a/", "a/..", "..", ".", "a.json", "a/b", "x.y", "/", "//"] {
        let path = app_log_path("/d", date);
        assert_eq!(path, std::path::Path::new("/d").join(format!("net_apps_{}.json", date)).to_str().unwrap());
        let want = std::path::PathBuf::from(&path).with_extension("tmp");
        assert_eq!(app_log_temporary_path("/d", date), want.to_str().unwrap(), "{}", date);
        assert_ne!(app_log_temporary_path("/d", date), path);
    }
}

fn store(files: &mut Vec<(String, String)>, date: &str, text: &str) {
    for step in save_steps("/d", date, text.to_string()) {
        match step {
            FileStep::Write { path, text } => {
                files.retain(|(p, _)| *p != path);
                files.push((path, text));
            }
            FileStep::Rename { from, to } => {
                files.retain(|(p, _)| *p != to);
                for file in files.iter_mut() {
                    if file.0 == from {
                        file.0 = to.clone();
                    }
                }
            }
        }
    }
}

#[test]
fn storing_replaces_the_log_of_its_day() {
    let mut files = Vec::new();
    store(&mut files, "2026-11-15", "a");
    store(&mut files, "2026-11-16", "b");
    store(&mut files, "2026-11-16", "c");
    let want = vec![
        ("/d/net_apps_2026-11-15.json".to_string(), "a".to_string()),
        ("/d/net_apps_2026-11-16.json".to_string(), "c".to_string()),
    ];
    assert_eq!(files, want);
}

#[test]
fn a_log_is_written_beside_the_former_one_first() {
    let steps = save_steps("/d", "2026-11-16", "{}".to_string());
    assert_eq!(steps.len(), 2);
    assert!(matches!(&steps[0], FileStep::Write { path, text }
        if path == "/d/net_apps_2026-11-16.tmp" && text == "{}"));
    assert!(matches!(&steps[1], FileStep::Rename { from, to }
        if from == "/d/net_apps_2026-11-16.tmp" && to == "/d/net_apps_2026-11-16.json"));
}

use bytes::Bytes;
use http::connection::Connection;
use http::request::{HttpRequest, PeerAddress};
use http::response::HttpStatusCode;
use http::server::HttpCall;
use http::static_files::{
    bare_answer, decide_index, decide_static, file_answer, mime_from_extension, range_answer,
    requested_range, requested_tail, StaticDecision, StaticFileOptions,
};

fn call() -> HttpCall {
    let head = Bytes::from("GET /s HTTP/1.1\r\n\r\n");
    let request = HttpRequest::parse(head, PeerAddress::V4(0), 0).ok().unwrap();
    HttpCall::new(Connection::new(), request, 1)
}

fn parts(path: &str) -> Option<Vec<Vec<u8>>> {
    Some(path.split('/').map(|p| p.as_bytes().to_vec()).collect())
}

#[test]
fn the_path_below_the_directory() {
    let mut c = call();
    assert_eq!(requested_tail(&c), "");
    c.set_path_params(vec![("__path__".to_string(), "//a/b".to_string())]);
    assert_eq!(requested_tail(&c), "a/b");
}

#[test]
fn files_outside_of_the_directory_are_refused() {
    let base = parts("srv/www");
    let at = |target: &str| decide_static("x", &base, &parts(target), false);
    assert_eq!(at("srv/www/x"), StaticDecision::File);
    assert_eq!(at("srv/www"), StaticDecision::File);
    assert_eq!(at("srv/wwwx/x"), StaticDecision::Answer(HttpStatusCode::Forbidden));
    assert_eq!(at("srv"), StaticDecision::Answer(HttpStatusCode::Forbidden));
    assert_eq!(at("etc/passwd"), StaticDecision::Answer(HttpStatusCode::Forbidden));
    assert_eq!(decide_static("x", &base, &parts("srv/www/x"), true), StaticDecision::Index);
    assert_eq!(decide_static("", &None, &None, false), StaticDecision::Index);
    assert_eq!(decide_static("x", &base, &None, false), StaticDecision::Index);
    assert_eq!(
        decide_static("x", &None, &parts("x"), false),
        StaticDecision::Answer(HttpStatusCode::InternalServerError)
    );
}

#[test]
fn the_index() {
    let opts = StaticFileOptions { dir: "d", index: Some("index.html") };
    assert_eq!(decide_index(&opts.index, true), StaticDecision::File);
    assert_eq!(decide_index(&opts.index, false), StaticDecision::Answer(HttpStatusCode::NotFound));
    assert_eq!(decide_index(&None, true), StaticDecision::Answer(HttpStatusCode::Forbidden));
}

#[test]
fn parts_of_files() {
    let range = |h: &'static str| requested_range(Some(h), 100);
    assert_eq!(range("bytes=0-9"), Some((0, 9)));
    assert_eq!(range("bytes=10-"), Some((10, 99)));
    assert_eq!(range("bytes=10"), Some((10, 99)));
    assert_eq!(range("bytes=-5"), Some((0, 5)));
    assert_eq!(range("bytes=5-7-9"), Some((5, 7)));
    assert_eq!(range("bytes=x-7"), Some((0, 7)));
    assert_eq!(range("bytes=5-x"), Some((5, 99)));
    assert_eq!(range("bytes=0-99"), Some((0, 99)));
    assert_eq!(range("bytes=0-100"), None);
    assert_eq!(range("bytes=7-5"), None);
    assert_eq!(range("lines=0-9"), None);
    assert_eq!(requested_range(None, 100), None);
    assert_eq!(requested_range(Some("bytes=0-"), 0), None);
}

#[test]
fn answers_with_files() {
    let c = call();
    let r = range_answer(&c, "part", (2, 5), 10, "text/plain");
    assert_eq!(r.status(), HttpStatusCode::PartialContent);
    assert_eq!(r.fields().get("content-range"), Some("bytes 2-5/10"));
    assert_eq!(r.fields().get("accept-ranges"), Some("bytes"));
    assert_eq!(r.fields().get("content-length"), Some("4"));
    assert_eq!(r.fields().get("content-type"), Some("text/plain"));
    let r = file_answer(&c, "whole", 10, "text/plain");
    assert_eq!(r.status(), HttpStatusCode::OK);
    assert_eq!(r.fields().get("content-length"), Some("10"));
    assert_eq!(r.fields().get("accept-ranges"), Some("bytes"));
    let r = bare_answer::<()>(&c, HttpStatusCode::NotFound);
    assert_eq!(r.status(), HttpStatusCode::NotFound);
    assert!(!r.has_body());
}

#[test]
fn types_of_files() {
    for (extension, mime) in [
        ("html", "text/html; charset=utf-8"),
        ("htm", "text/html; charset=utf-8"),
        ("css", "text/css; charset=utf-8"),
        ("js", "application/javascript"),
        ("json", "application/json"),
        ("png", "image/png"),
        ("jpg", "image/jpeg"),
        ("jpeg", "image/jpeg"),
        ("gif", "image/gif"),
        ("svg", "image/svg+xml"),
        ("ico", "image/x-icon"),
        ("woff", "font/woff"),
        ("woff2", "font/woff2"),
        ("ttf", "font/ttf"),
        ("pdf", "application/pdf"),
        ("txt", "text/plain; charset=utf-8"),
        ("xml", "application/xml"),
        ("wasm", "application/wasm"),
        ("HTML", "application/octet-stream"),
    ] {
        assert_eq!(mime_from_extension(Some(extension)), mime);
    }
    assert_eq!(mime_from_extension(None), "application/octet-stream");
}

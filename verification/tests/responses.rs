use bytes::Bytes;
use http::body::Body;
use http::compress::{Compress, Encoding};
use http::cookie_store::CookieOptions;
use http::response::{
    is_reserved, HttpResponse, HttpResponseBodyInitialized, HttpResponseBodyUnInitialized,
    HttpResponseInit, HttpStatusCode, Payload,
};

type Fresh = HttpResponse<HttpResponseBodyUnInitialized, &'static str>;
type Ready = HttpResponse<HttpResponseBodyInitialized, &'static str>;

fn fresh() -> Fresh {
    HttpResponse::new(
        Bytes::from("HTTP/1.1"),
        0x0123_4567_89ab_cdef_0123_4567_89ab_cdef,
        "/x".to_string(),
    )
}

#[test]
fn a_fresh_response_names_its_request() {
    let r = fresh();
    assert_eq!(r.fields().get("x-request-id"), Some("01234567-89ab-cdef-0123-456789abcdef"));
    assert_eq!(r.status(), HttpStatusCode::OK);
    assert_eq!(&r.http_version()[..], b"HTTP/1.1");
    assert!(!r.has_body());
    assert!(!r.is_suppressed());
    assert!(r.cookies().is_none());
}

#[test]
fn bodies_describe_themselves() {
    let r: Ready = fresh().bytes(Bytes::from("hello"), "text/plain".to_string());
    assert_eq!(r.fields().get("content-type"), Some("text/plain"));
    assert_eq!(r.fields().get("content-length"), Some("5"));
    assert!(r.has_body());
    let value: serde_json::Value = serde_json::from_str("[1, 2]").unwrap();
    let mut r: Ready = fresh().json(&value);
    assert_eq!(r.fields().get("content-type"), Some("application/json"));
    assert_eq!(r.fields().get("content-length"), Some("5"));
    match r.take_body() {
        Some(Payload::Bytes(b)) => assert_eq!(&b.to_bytes()[..], b"[1,2]"),
        _ => panic!("no bytes"),
    }
    assert!(!r.has_body());
    let r: Ready = fresh().json_encoded(Bytes::from("{}"));
    assert_eq!(r.fields().get("content-length"), Some("2"));
    let mut r: Ready = fresh().stream("reader", 12, "image/png".to_string());
    assert_eq!(r.fields().get("content-length"), Some("12"));
    match r.take_body() {
        Some(Payload::Stream { reader, content_length, content_type }) => {
            assert_eq!(reader, "reader");
            assert_eq!(content_length, 12);
            assert_eq!(content_type, Some("image/png".to_string()));
        }
        _ => panic!("no stream"),
    }
    assert!(!fresh().empty().has_body());
}

#[test]
fn reserved_headers_are_left_alone() {
    let r = fresh()
        .add_header("X-Request-ID", "mine")
        .add_header("Date", "never")
        .add_header("x-a", "1")
        .add_header("X-A", "2")
        .remove_header("x-request-id");
    assert_eq!(r.fields().get("x-request-id"), Some("01234567-89ab-cdef-0123-456789abcdef"));
    assert_eq!(r.fields().get("date"), None);
    assert_eq!(r.fields().get("x-a"), Some("1, 2"));
    let r = r.remove_header("x-a").__remove_header_internal("x-request-id");
    assert_eq!(r.fields().len(), 0);
    let r = r.__add_header_internal("date", "now");
    assert_eq!(r.fields().get("date"), Some("now"));
    for name in [
        "content-type",
        "content-length",
        "x-request-id",
        "access-control-allow-origin",
        "access-control-allow-credentials",
        "access-control-allow-methods",
        "access-control-request-headers",
        "access-control-max-age",
        "access-control-expose-headers",
        "cookie",
        "set-cookie",
        "accept-encoding",
        "date",
        "connection",
        "keep-alive",
        "content-range",
        "Accept-Ranges",
    ] {
        assert!(is_reserved(name));
    }
    assert!(!is_reserved("vary"));
    assert!(!is_reserved("allow"));
}

#[test]
fn cookies_go_along() {
    let r = fresh()
        .remove_cookie("a")
        .add_cookie(" a ", "1", None)
        .add_cookie("b", "2", Some(CookieOptions { secure: true, ..CookieOptions::default() }))
        .remove_cookie("a");
    let store = r.cookies().unwrap();
    assert_eq!(store.get("a"), None);
    assert_eq!(store.get("b"), Some("2"));
    assert_eq!(&store.to_bytes(0)[..], b"Set-Cookie: b=2; Secure\r\n");
}

#[test]
fn what_is_compressed() {
    assert!(Compress::is_compressible("text/css"));
    assert!(Compress::is_compressible("application/json"));
    assert!(Compress::is_compressible("application/javascript"));
    assert!(Compress::is_compressible("image/svg+xml"));
    assert!(!Compress::is_compressible("image/png"));
    assert!(!Compress::is_compressible("a text/"));
    assert_eq!(Compress::choose_encoding("gzip, br, zstd"), Some(Encoding::Zstd));
    assert_eq!(Compress::choose_encoding("gzip, br"), Some(Encoding::Brotli));
    assert_eq!(Compress::choose_encoding("gzip"), Some(Encoding::Gzip));
    assert_eq!(Compress::choose_encoding("identity"), None);
    let big = Bytes::from(vec![b'x'; 1024]);
    let small = Bytes::from(vec![b'x'; 1023]);
    let accepts = |r: Fresh| r.__add_header_internal("accept-encoding", "gzip, br");
    let text = || "text/plain".to_string();
    assert_eq!(accepts(fresh()).bytes(big.clone(), text()).compression(), Some(Encoding::Brotli));
    assert_eq!(accepts(fresh()).bytes(small, text()).compression(), None);
    assert_eq!(accepts(fresh()).bytes(big.clone(), "image/png".to_string()).compression(), None);
    assert_eq!(fresh().bytes(big, text()).compression(), None);
    assert_eq!(accepts(fresh()).stream("r", 3, text()).compression(), Some(Encoding::Brotli));
    assert_eq!(accepts(fresh()).empty().compression(), None);
}

#[test]
fn compressed_bodies_replace_longer_ones() {
    let body = || Body::from_bytes(&Bytes::from("aaaaaaaa"), Some("text/plain".to_string()));
    let mut r: Ready = fresh().empty().put_compressed(Encoding::Gzip, body(), b"zz".to_vec());
    assert_eq!(r.fields().get("content-encoding"), Some("gzip"));
    assert_eq!(r.fields().get("content-length"), Some("2"));
    assert_eq!(r.fields().get("vary"), Some("Accept-Encoding"));
    match r.take_body() {
        Some(Payload::Bytes(b)) => assert_eq!(&b.to_bytes()[..], b"zz"),
        _ => panic!("no bytes"),
    }
    let mut r: Ready = fresh().empty().put_compressed(Encoding::Zstd, body(), b"zzzzzzzz".to_vec());
    assert_eq!(r.fields().get("content-encoding"), None);
    match r.take_body() {
        Some(Payload::Bytes(b)) => assert_eq!(&b.to_bytes()[..], b"aaaaaaaa"),
        _ => panic!("no bytes"),
    }
}

#[test]
fn compressed_streams_come_in_chunks() {
    let r: Ready = fresh()
        .stream("plain", 9, "text/plain".to_string())
        .put_compressed_stream(Encoding::Zstd, "packed", Some("text/plain".to_string()));
    assert_eq!(r.fields().get("content-length"), None);
    assert_eq!(r.fields().get("transfer-encoding"), Some("chunked"));
    assert_eq!(r.fields().get("content-encoding"), Some("zstd"));
    assert_eq!(r.fields().get("vary"), Some("Accept-Encoding"));
}

#[test]
fn status_codes() {
    let all = [
        (HttpStatusCode::OK, 200, "200 OK"),
        (HttpStatusCode::Created, 201, "201 Created"),
        (HttpStatusCode::Accepted, 202, "202 Accepted"),
        (HttpStatusCode::NoContent, 204, "204 No Content"),
        (HttpStatusCode::PartialContent, 206, "206 Partial Content"),
        (HttpStatusCode::NotModified, 304, "304 Not Modified"),
        (HttpStatusCode::BadRequest, 400, "400 Bad Request"),
        (HttpStatusCode::Unauthorized, 401, "401 Unauthorized"),
        (HttpStatusCode::Forbidden, 403, "403 Forbidden"),
        (HttpStatusCode::NotFound, 404, "404 Not Found"),
        (HttpStatusCode::MethodNotAllowed, 405, "405 Method Not Allowed"),
        (HttpStatusCode::RequestTimeout, 408, "408 Request Timeout"),
        (HttpStatusCode::ContentTooLarge, 413, "413 Content Too Large"),
        (HttpStatusCode::UriTooLong, 414, "414 URI Too Long"),
        (HttpStatusCode::RequestHeaderFieldsTooLarge, 431, "431 Request Header Fields Too Large"),
        (HttpStatusCode::InternalServerError, 500, "500 Internal Server Error"),
        (HttpStatusCode::NotImplemented, 501, "501 Not Implemented"),
        (HttpStatusCode::BadGateWay, 502, "502 Bad Gateway"),
        (HttpStatusCode::ServiceUnavailable, 503, "503 Service Unavailable"),
    ];
    for (code, number, text) in all {
        assert_eq!(u16::from(code), number);
        assert_eq!(&code.to_bytes()[..], text.as_bytes());
    }
}

#[test]
fn handles_pass_everything_on() {
    let init: HttpResponseInit<u8, &'static str> =
        HttpResponseInit { connection: 7, response: fresh() };
    let ready = init
        .status_code(HttpStatusCode::Created)
        .add_header("x-a", "1")
        .add_header("x-b", "2")
        .remove_header("x-b")
        .__add_header_internal("vary", "v")
        .__remove_header_internal("x-request-id")
        .add_cookie("c", "1", None)
        .add_cookie("d", "1", None)
        .remove_cookie("d")
        .bytes(Bytes::from("x"), "text/plain".to_string())
        .add_header("x-c", "3");
    assert_eq!(ready.connection, 7);
    assert_eq!(ready.response.status(), HttpStatusCode::Created);
    assert_eq!(ready.response.fields().get("x-a"), Some("1"));
    assert_eq!(ready.response.fields().get("x-b"), None);
    assert_eq!(ready.response.fields().get("x-c"), Some("3"));
    assert_eq!(ready.response.fields().get("vary"), Some("v"));
    assert_eq!(ready.response.fields().get("x-request-id"), None);
    assert_eq!(ready.response.cookies().unwrap().get("c"), Some("1"));
    assert_eq!(ready.response.cookies().unwrap().get("d"), None);
    let ready = ready.status_code(HttpStatusCode::Accepted);
    assert_eq!(ready.response.status(), HttpStatusCode::Accepted);
    let init = |_: ()| HttpResponseInit { connection: 7u8, response: fresh() };
    assert!(!init(()).empty().response.has_body());
    assert!(init(()).stream("r", 1, "x".to_string()).response.has_body());
    let null = serde_json::Value::Null;
    assert_eq!(init(()).json(&null).response.fields().get("content-length"), Some("4"));
    assert_eq!(
        init(()).json_encoded(Bytes::from("1")).response.fields().get("content-length"),
        Some("1")
    );
}

#[test]
fn a_compressed_body_that_had_a_length() {
    let mut r: Ready = fresh().bytes(Bytes::from("aaaaaaaa"), "text/plain".to_string());
    let body = match r.take_body() {
        Some(Payload::Bytes(b)) => b,
        _ => panic!("no bytes"),
    };
    let mut r = r.put_compressed(Encoding::Brotli, body, b"zz".to_vec());
    assert_eq!(r.fields().get("content-encoding"), Some("br"));
    assert_eq!(r.fields().get("content-length"), Some("8, 2"));
    match r.take_body() {
        Some(Payload::Bytes(b)) => assert_eq!(&b.to_bytes()[..], b"zz"),
        _ => panic!("no bytes"),
    }
}

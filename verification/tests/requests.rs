use bytes::Bytes;
use http::request::{
    find_pair, parse_query_params, BodyState, HttpMethod, HttpRequest, HttpRequestError,
    PeerAddress,
};

fn parse(head: &'static str) -> Result<HttpRequest, HttpRequestError> {
    HttpRequest::parse(Bytes::from(head), PeerAddress::V4(0x7f000001), 100)
}

#[test]
fn requests_are_parsed() {
    let q = parse(
        "POST /a/b?x=1&y=%20z HTTP/1.1\r\nHost: \u{a0}example.org \r\nContent-Length: 12\r\nCookie: a=1; b=2\r\nTransfer-Encoding: gzip, chunked\r\n\r\n",
    )
    .ok()
    .unwrap();
    assert_eq!(*q.method(), HttpMethod::POST);
    assert_eq!(q.route(), "/a/b?x=1&y=%20z");
    assert_eq!(&q.http_version()[..], b"HTTP/1.1");
    assert_eq!(q.host(), Some("example.org"));
    assert_eq!(q.header("CONTENT-length"), Some("12"));
    assert_eq!(q.header("nothing"), None);
    assert_eq!(q.cookie("b"), Some("2"));
    assert_eq!(q.cookie("c"), None);
    assert_eq!(q.query_param("x"), Some("1"));
    assert_eq!(q.query_param("y"), Some(" z"));
    assert_eq!(q.query_param("z"), None);
    assert_eq!(q.path_param("x"), None);
    assert_eq!(q.client_ipv4_address(), Some(0x7f000001));
    assert_eq!(q.client_ipv6_address(), None);
    assert_eq!(q.max_body_size(), 100);
    assert!(matches!(
        q.body_state(),
        BodyState::Unread { content_length: 12, is_chunked: true }
    ));
}

#[test]
fn requests_with_little_in_them() {
    let q = parse("BREW  \nA: b\n\n").ok().unwrap();
    assert_eq!(*q.method(), HttpMethod::GET);
    assert_eq!(q.route(), "");
    assert_eq!(q.http_version().len(), 0);
    assert_eq!(q.host(), None);
    assert_eq!(q.header("a"), Some("b"));
    assert!(matches!(
        q.body_state(),
        BodyState::Unread { content_length: 0, is_chunked: false }
    ));
    let q = HttpRequest::parse(
        Bytes::from("get / HTTP/1.0\r\nContent-Length: many\r\n\r\n"),
        PeerAddress::V6(1),
        0,
    )
    .ok()
    .unwrap();
    assert_eq!(q.client_ipv6_address(), Some(1));
    assert_eq!(q.client_ipv4_address(), None);
    assert_eq!(*q.method(), HttpMethod::GET);
}

#[test]
fn malformed_request_lines_are_refused() {
    for (head, message) in [
        ("GET / HTTP/1.1", "Missing request line"),
        ("GET\r\n\r\n", "Missing HTTP method"),
        ("GET /\r\n\r\n", "Missing route"),
    ] {
        match parse(head) {
            Err(HttpRequestError::RequestLineParsingFailed(s)) => assert_eq!(s, message),
            _ => panic!("not refused"),
        }
    }
}

#[test]
fn bodies_over_the_limit_are_refused() {
    let head = "POST / HTTP/1.1\r\ncontent-length: 101\r\n\r\n";
    assert!(matches!(parse(head), Err(HttpRequestError::PayloadTooLarge)));
    assert!(parse("POST / HTTP/1.1\r\ncontent-length: 100\r\n\r\n").is_ok());
}

#[test]
fn routes_that_are_not_text_are_empty() {
    let q = HttpRequest::parse(
        Bytes::from(&b"GET /\xff HTTP/1.1\r\n\r\n"[..]),
        PeerAddress::V4(0),
        0,
    )
    .ok()
    .unwrap();
    assert_eq!(q.route(), "");
}

#[test]
fn methods_by_name() {
    let all = [
        HttpMethod::GET,
        HttpMethod::POST,
        HttpMethod::PATCH,
        HttpMethod::PUT,
        HttpMethod::DELETE,
        HttpMethod::OPTIONS,
        HttpMethod::HEAD,
        HttpMethod::CONNECT,
        HttpMethod::TRACE,
    ];
    for m in all {
        assert_eq!(HttpMethod::from_str(m.as_str()).ok(), Some(m));
        assert_eq!(HttpMethod::from_str(&m.as_str().to_lowercase()).ok(), Some(m));
    }
    assert!(matches!(
        HttpMethod::from_str("BREW"),
        Err(HttpRequestError::InvalidHttpMethod())
    ));
    for text in ["", " GET", "GET ", "G\u{c9}T", "\u{212a}", "po\u{17f}t"] {
        assert!(HttpMethod::from_str(text).is_err());
    }
}

#[test]
fn query_parameters() {
    let p = parse_query_params("/x?a=1&b=%41+c&a=2&empty");
    assert_eq!(find_pair(&p, "a"), Some("1"));
    assert_eq!(find_pair(&p, "b"), Some("A c"));
    assert_eq!(find_pair(&p, "empty"), Some(""));
    assert_eq!(find_pair(&p, "c"), None);
    assert_eq!(parse_query_params("/x").len(), 0);
    assert_eq!(parse_query_params("/x?").len(), 0);
    assert_eq!(find_pair(&parse_query_params("?a=1?b"), "a"), Some("1?b"));
}

#[test]
fn errors_in_words() {
    assert_eq!(HttpRequestError::RequestLineParsingFailed("a".to_string()).message(), "a");
    assert_eq!(HttpRequestError::HeaderParsingFailed("b".to_string()).message(), "b");
    assert_eq!(HttpRequestError::BodyParsingFailed("c".to_string()).message(), "c");
    assert_eq!(HttpRequestError::RequestParsingFailed("d".to_string()).message(), "d");
    assert_eq!(HttpRequestError::InvalidHttpMethod().message(), "invalid http method");
    assert_eq!(HttpRequestError::PayloadTooLarge.message(), "payload too large");
    assert_eq!(HttpRequestError::RequestLineTooLong.message(), "request line too long");
    assert_eq!(HttpRequestError::HeadersTooLarge.message(), "headers too large");
    assert_eq!(HttpRequestError::Timeout.message(), "request time out");
    let io = std::io::Error::new(std::io::ErrorKind::Other, "broken");
    assert_eq!(HttpRequestError::Io(io).message(), "io error: broken");
}

#[test]
fn a_head_is_read_back_as_it_was_written() {
    let mut fields = http::field_lines::FieldLines::new();
    fields.set("host", "h");
    fields.set("x-a", "1; 2");
    let mut head = b"PUT /r?q HTTP/1.1\r\n".to_vec();
    head.extend_from_slice(&fields.to_bytes());
    head.extend_from_slice(b"\r\n");
    let q = HttpRequest::parse(Bytes::from(head), PeerAddress::V4(1), 0).ok().unwrap();
    assert_eq!(*q.method(), HttpMethod::PUT);
    assert_eq!(q.route(), "/r?q");
    assert_eq!(&q.http_version()[..], b"HTTP/1.1");
    assert_eq!(q.header("host"), Some("h"));
    assert_eq!(q.header("x-a"), Some("1; 2"));
}

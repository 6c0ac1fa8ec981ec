use bytes::Bytes;
use http::connection::{
    write_body, write_chunk, write_terminating_chunk, ChunkStep, Connection, DateCache,
    OutgoingBody, ReadEvent, ReadPhase, ReadStep,
};
use http::request::{HttpRequestError, PeerAddress};
use http::response::{
    HttpResponse, HttpResponseBodyInitialized, HttpResponseBodyUnInitialized, HttpStatusCode,
};

const PEER: PeerAddress = PeerAddress::V4(1);

fn fresh() -> HttpResponse<HttpResponseBodyUnInitialized, &'static str> {
    HttpResponse::new(Bytes::from("HTTP/1.1"), 0, "/".to_string())
}

fn fed(data: &[u8]) -> Connection {
    let mut c = Connection::new();
    c.receive(data);
    c
}

#[test]
fn a_request_is_read_in_pieces() {
    let mut c = Connection::new();
    let (phase, step) = c.read_request(PEER, 10);
    assert_eq!(phase, ReadPhase::Idle);
    assert!(matches!(step, ReadStep::Wait { flush: false }));
    let step = c.read_event(phase, ReadEvent::Data(b"GET /a HTTP/1.1\r\nx: y\r".to_vec()), PEER, 10);
    assert!(matches!(step, ReadStep::Wait { .. }));
    let data = ReadEvent::Data(b"\n\r\nGET /b HTTP/1.1\r\n\r\nrest".to_vec());
    match c.read_event(ReadPhase::Head, data, PEER, 10) {
        ReadStep::Done(Ok(Some(q))) => {
            assert_eq!(q.route(), "/a");
            assert_eq!(q.header("x"), Some("y"));
        }
        _ => panic!("not read"),
    }
    match c.read_request(PEER, 10) {
        (ReadPhase::Head, ReadStep::Done(Ok(Some(q)))) => assert_eq!(q.route(), "/b"),
        _ => panic!("not read"),
    }
    match c.take_exact(4) {
        Some(b) => assert_eq!(&b[..], b"rest"),
        None => panic!("not there"),
    }
}

#[test]
fn waiting_ends_in_one_way_or_another() {
    let mut c = Connection::new();
    for event in [ReadEvent::Closed, ReadEvent::TimedOut] {
        assert!(matches!(
            c.read_event(ReadPhase::Idle, event, PEER, 0),
            ReadStep::Done(Ok(None))
        ));
    }
    match c.read_event(ReadPhase::Head, ReadEvent::Closed, PEER, 0) {
        ReadStep::Done(Err(HttpRequestError::HeaderParsingFailed(s))) => {
            assert_eq!(s, "EOF before headers finished")
        }
        _ => panic!("not refused"),
    }
    assert!(matches!(
        c.read_event(ReadPhase::Head, ReadEvent::TimedOut, PEER, 0),
        ReadStep::Done(Err(HttpRequestError::Timeout))
    ));
    for phase in [ReadPhase::Idle, ReadPhase::Head] {
        let broken = std::io::Error::new(std::io::ErrorKind::Other, "x");
        assert!(matches!(
            c.read_event(phase, ReadEvent::Failed(broken), PEER, 0),
            ReadStep::Done(Err(HttpRequestError::Io(_)))
        ));
    }
}

#[test]
fn long_heads_are_refused() {
    let mut c = Connection::new();
    let data = ReadEvent::Data(vec![b'a'; 65536]);
    assert!(matches!(c.read_event(ReadPhase::Idle, data, PEER, 0), ReadStep::Wait { flush: true }));
    let data = ReadEvent::Data(vec![b'a'; 1]);
    assert!(matches!(
        c.read_event(ReadPhase::Head, data, PEER, 0),
        ReadStep::Done(Err(HttpRequestError::HeadersTooLarge))
    ));
}

#[test]
fn heads_of_responses() {
    let mut c = Connection::new();
    let mut cache = DateCache::new();
    let r = fresh()
        .__remove_header_internal("x-request-id")
        .__add_header_internal("connection", "mine")
        .add_header("x-a", "1")
        .add_cookie("c", "d", None)
        .bytes(Bytes::from("hi"), "text/plain".to_string());
    assert!(!c.has_written_response());
    let out = c.write_response(r, &mut cache, 784111777, 784111777);
    assert!(c.has_written_response());
    assert_eq!(
        std::str::from_utf8(&out.head).unwrap(),
        "HTTP/1.1 200 OK\r\ndate: Sun, 06 Nov 1994 08:49:37 GMT\r\nconnection: keep-alive\r\n\
         keep-alive: timeout=75\r\nx-a: 1\r\ncontent-type: text/plain\r\ncontent-length: 2\r\n\
         Set-Cookie: c=d\r\n\r\n"
    );
    assert!(matches!(out.body, OutgoingBody::Whole(b) if b == b"hi"));
    assert!(out.flush);
    assert_eq!(out.status, HttpStatusCode::OK);
}

#[test]
fn heads_of_responses_without_a_body() {
    let mut c = fed(b"more");
    c.set_keep_alive(false, 0);
    let mut cache = DateCache::new();
    let r = fresh().status_code(HttpStatusCode::NotFound).__remove_header_internal("x-request-id");
    let out = c.write_response(r.empty(), &mut cache, 1, 0);
    assert_eq!(
        std::str::from_utf8(&out.head).unwrap(),
        "HTTP/1.1 404 Not Found\r\ndate: Thu, 01 Jan 1970 00:00:00 GMT\r\nconnection: close\r\n\
         content-length: 0\r\n\r\n"
    );
    assert!(matches!(out.body, OutgoingBody::Nothing));
    assert!(!out.flush);
    let r = fresh().status_code(HttpStatusCode::NoContent).__remove_header_internal("x-request-id");
    let out = c.write_response(r.empty(), &mut cache, 1, 0);
    assert!(!std::str::from_utf8(&out.head).unwrap().contains("content-length"));
}

#[test]
fn the_date_is_put_together_once_a_second() {
    let mut cache = DateCache::new();
    let mut buf: Vec<u8> = b"x".to_vec();
    http::connection::write_date_header(&mut buf, &mut cache, 10, 784111777);
    assert_eq!(&buf[..], b"xdate: Sun, 06 Nov 1994 08:49:37 GMT\r\n");
    buf.clear();
    http::connection::write_date_header(&mut buf, &mut cache, 10, 0);
    assert_eq!(&buf[..], b"date: Sun, 06 Nov 1994 08:49:37 GMT\r\n");
    buf.clear();
    http::connection::write_date_header(&mut buf, &mut cache, 11, 0);
    assert_eq!(&buf[..], b"date: Thu, 01 Jan 1970 00:00:00 GMT\r\n");
    assert_eq!(cache.secs, 11);
    buf.clear();
    http::connection::write_date_header(&mut buf, &mut cache, 12, 253402300799);
    assert_eq!(&buf[..], b"date: Fri, 31 Dec 9999 23:59:59 GMT\r\n");
    buf.clear();
    http::connection::write_date_header(&mut buf, &mut cache, 13, 8210266876799);
    assert_eq!(&buf[..], b"date: Mon, 31 Dec +262142 23:59:59 GMT\r\n");
}

#[test]
fn bodies_of_responses() {
    let whole = || fresh().bytes(Bytes::from("hello"), "text/plain".to_string());
    assert!(matches!(write_body(whole()), OutgoingBody::Whole(b) if b == b"hello"));
    let chunked = whole().__add_header_internal("transfer-encoding", "chunked");
    assert!(
        matches!(write_body(chunked), OutgoingBody::Whole(b) if b == b"5\r\nhello\r\n0\r\n\r\n")
    );
    assert!(matches!(write_body(whole().suppress_body()), OutgoingBody::Nothing));
    for status in [HttpStatusCode::NoContent, HttpStatusCode::NotModified] {
        assert!(matches!(write_body(whole().status_code(status)), OutgoingBody::Nothing));
    }
    let stream = || -> HttpResponse<HttpResponseBodyInitialized, &'static str> {
        fresh().stream("r", 1, "x".to_string())
    };
    assert!(matches!(
        write_body(stream()),
        OutgoingBody::Stream { reader: "r", chunked: false }
    ));
    assert!(matches!(
        write_body(stream().__add_header_internal("transfer-encoding", "gzip, chunked")),
        OutgoingBody::Stream { reader: "r", chunked: true }
    ));
    assert!(matches!(write_body(fresh().empty()), OutgoingBody::Nothing));
}

#[test]
fn chunks_are_read_back() {
    let mut wire = write_chunk(&[b'x'; 300]);
    assert_eq!(&wire[..5], b"12c\r\n");
    wire.extend(write_chunk(b"yz"));
    wire.extend(write_terminating_chunk());
    wire.extend_from_slice(b"next");
    let mut c = fed(&wire);
    assert!(matches!(c.take_chunk(1000), ChunkStep::Data(b) if b[..] == [b'x'; 300]));
    assert!(matches!(c.take_chunk(2), ChunkStep::Data(b) if &b[..] == b"yz"));
    assert!(matches!(c.take_chunk(0), ChunkStep::End));
    assert!(matches!(c.take_exact(4), Some(b) if &b[..] == b"next"));
    assert!(c.take_exact(1).is_none());
}

#[test]
fn chunks_that_are_none() {
    assert!(matches!(fed(b"5").take_chunk(9), ChunkStep::Wait));
    assert!(matches!(fed(b"5\r\nhello").take_chunk(9), ChunkStep::Wait));
    assert!(matches!(fed(b"5\r\nhello\r").take_chunk(9), ChunkStep::Wait));
    assert!(matches!(fed(b"0\r\n").take_chunk(9), ChunkStep::Wait));
    assert!(matches!(fed(b"5\r\nhello").take_chunk(4), ChunkStep::TooLarge));
    assert!(matches!(fed(b"5\r\nhelloxx").take_chunk(9), ChunkStep::Malformed));
    assert!(matches!(fed(b"\r\n").take_chunk(9), ChunkStep::Malformed));
    assert!(matches!(fed(b"5;a\r\nhello\r\n").take_chunk(9), ChunkStep::Malformed));
}

#[test]
fn the_fields_of_a_response_are_read_back() {
    let mut c = Connection::new();
    let r = fresh().add_header("x-a", "1").bytes(Bytes::from("hi"), "text/plain".to_string());
    let out = c.write_response(r, &mut DateCache::new(), 5, 0);
    let line_end = out.head.iter().position(|b| *b == b'\n').unwrap();
    let fields = http::field_lines::FieldLines::from(&out.head[line_end + 1..]);
    assert_eq!(fields.len(), 7);
    assert_eq!(fields.get("date"), Some("Thu, 01 Jan 1970 00:00:00 GMT"));
    assert_eq!(fields.get("connection"), Some("keep-alive"));
    assert_eq!(fields.get("keep-alive"), Some("timeout=75"));
    assert_eq!(fields.get("x-request-id"), Some("00000000-0000-0000-0000-000000000000"));
    assert_eq!(fields.get("x-a"), Some("1"));
    assert_eq!(fields.get("content-type"), Some("text/plain"));
    assert_eq!(fields.get("content-length"), Some("2"));
}

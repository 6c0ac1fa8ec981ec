use bytes::Bytes;
use http::body::{Body, Multipart, MultipartError};

const FORM: &[u8] = b"preamble\r\n--XX\r\nContent-Disposition: form-data; name=\"a\"\r\n\r\nhello\r\n--XX\r\ncontent-disposition: form-data; name=file; filename=\"f.bin\"\r\n\r\n\x00\x01\x02\r\n--XX--\r\n";

#[test]
fn multipart_bodies_are_taken_apart() {
    let m = Multipart::parse(&Bytes::from(FORM), "XX").ok().unwrap();
    let a = m.get("a").unwrap();
    assert_eq!(a.name(), "a");
    assert_eq!(a.content_type(), None);
    assert_eq!(&a.content()[..], b"hello");
    let f = m.get("file").unwrap();
    assert_eq!(f.content_type(), Some("application/octet-stream"));
    assert_eq!(&f.content()[..], b"\x00\x01\x02");
    assert_eq!(f.data(), "AAEC");
    assert!(m.get("b").is_none());
}

#[test]
fn base64_of_field_contents() {
    for (content, text) in [("", ""), ("f", "Zg=="), ("fo", "Zm8="), ("foo", "Zm9v"), ("\u{fb}\u{ff}\u{fb}\u{ff}", "w7vDv8O7w78=")] {
        let body = format!("--B\r\nContent-Disposition: x; name=n\r\n\r\n{content}\r\n--B--");
        let m = Multipart::parse(&Bytes::from(body), "B").ok().unwrap();
        assert_eq!(m.get("n").unwrap().data(), text);
    }
}

#[test]
fn of_two_fields_with_one_name_the_later_counts() {
    let body = "--B\r\nContent-Disposition: x; name=n\r\n\r\n1\r\n--B\r\nContent-Disposition: x; name=n\r\nContent-Type: text/plain\r\n\r\n2\r\n--B--";
    let m = Multipart::parse(&Bytes::from(body), "B").ok().unwrap();
    assert_eq!(&m.get("n").unwrap().content()[..], b"2");
    assert_eq!(m.get("n").unwrap().content_type(), Some("text/plain"));
}

#[test]
fn multipart_bodies_may_end_behind_a_delimiter_line() {
    let body = "--B\r\nContent-Disposition: x; name=\" n \"\r\n\r\n1\r\n--B\r\n";
    let m = Multipart::parse(&Bytes::from(body), "B").ok().unwrap();
    assert_eq!(&m.get(" n ").unwrap().content()[..], b"1");
}

fn refused(body: &'static [u8]) -> MultipartError {
    match Multipart::parse(&Bytes::from(body), "B") {
        Ok(_) => panic!("accepted"),
        Err(e) => e,
    }
}

#[test]
fn malformed_multipart_bodies_are_refused() {
    assert!(matches!(refused(b""), MultipartError::MissingBoundary));
    assert!(matches!(
        refused(b"--B\r\nContent-Disposition: x; name=n"),
        MultipartError::Malformed("headers missing CRLFCRLF")
    ));
    assert!(matches!(
        refused(b"--B\r\nContent-Disposition: x; name=n\r\n\r\nabc"),
        MultipartError::Malformed("next boundary not found")
    ));
    assert!(matches!(
        refused(b"--B\r\nContent-Disposition: x; name=n\r\n\r\nabc\r\n--Bxx"),
        MultipartError::Malformed("boundary line missing CRLF")
    ));
    assert!(matches!(
        refused(b"--B\r\nContent-Type: x\r\n\r\nabc\r\n--B--"),
        MultipartError::Malformed("missing Content-Disposition name")
    ));
    assert!(matches!(
        refused(b"--B\r\nContent-Type: \xff\r\n\r\nabc\r\n--B--"),
        MultipartError::Utf8(_)
    ));
}

#[test]
fn bodies_are_read_by_their_content_type() {
    let json = Body::from_bytes(
        &Bytes::from("{\"a\": [1, true]}"),
        Some("application/json; charset=utf-8".to_string()),
    );
    let value = json.as_json().unwrap();
    assert_eq!(value["a"][0], 1);
    assert_eq!(value["a"][1], true);
    assert!(json.as_multipart().is_none());
    let text = Body::from_bytes(&Bytes::from("{}"), Some("text/plain".to_string()));
    assert!(text.as_json().is_none());
    assert!(Body::from_bytes(&Bytes::from("{}"), None).as_json().is_none());
    let broken = Body::from_bytes(&Bytes::from("{"), Some("application/json".to_string()));
    assert!(broken.as_json().is_none());
    assert_eq!(&broken.to_bytes()[..], b"{");
}

#[test]
fn the_boundary_comes_from_the_content_type() {
    let form = Body::from_bytes(
        &Bytes::from(FORM),
        Some("multipart/form-data; charset=x; boundary=XX".to_string()),
    );
    assert_eq!(&form.as_multipart().unwrap().get("a").unwrap().content()[..], b"hello");
    let other = Body::from_bytes(
        &Bytes::from(FORM),
        Some("multipart/form-data; boundary=YY; boundary=XX".to_string()),
    );
    assert!(other.as_multipart().is_none());
}

#[test]
fn bodies_of_json_values() {
    let value: serde_json::Value = serde_json::from_str("{\"b\":1, \"a\":[null]}").unwrap();
    let body = Body::from(value.clone());
    assert_eq!(&body.to_bytes()[..], b"{\"a\":[null],\"b\":1}");
    assert_eq!(body.as_json(), Some(value.clone()));
    let body = Body::from(value.as_object().unwrap().clone());
    assert_eq!(&body.to_bytes()[..], b"{\"a\":[null],\"b\":1}");
    assert_eq!(body.as_json(), Some(value));
}

#[test]
fn multipart_errors_in_words() {
    assert_eq!(refused(b"").message(), "boundary not found");
    assert_eq!(refused(b"--B\r\nx").message(), "headers missing CRLFCRLF");
    let utf8 = refused(b"--B\r\nab\xff\r\n\r\nabc\r\n--B--");
    assert!(matches!(&utf8, MultipartError::Utf8(e) if e.valid_up_to() == 2));
    assert_eq!(utf8.message(), std::str::from_utf8(b"ab\xff").unwrap_err().to_string());
}

#[test]
fn forms_are_read_back() {
    let parts: [(&str, &str, &[u8]); 3] = [
        ("a", "text/plain", b"1"),
        ("\u{e9}: b", "x/y; z=\u{e9}", b""),
        ("", "t", b"\r\n--\r\n\r\n--B\r\n--BOU\r"),
    ];
    let mut form = b"--BOUND\r\n".to_vec();
    for (i, (name, kind, content)) in parts.iter().enumerate() {
        form.extend_from_slice(
            format!("Content-Disposition: form-data; name=\"{name}\"\r\nContent-Type: {kind}\r\n\r\n")
                .as_bytes(),
        );
        form.extend_from_slice(content);
        form.extend_from_slice(b"\r\n--BOUND");
        form.extend_from_slice(if i == 2 { &b"--"[..] } else { &b"\r\n"[..] });
    }
    let m = Multipart::parse(&Bytes::from(form), "BOUND").ok().unwrap();
    assert_eq!(m.fields().len(), 3);
    for (name, kind, content) in parts {
        let f = m.get(name).unwrap();
        assert_eq!(f.name(), name);
        assert_eq!(f.content_type(), Some(kind));
        assert_eq!(&f.content()[..], content);
    }
    assert!(m.get("b").is_none());
}

use http::field_lines::FieldLines;

fn pairs(f: &FieldLines) -> Vec<(String, String)> {
    f.iter().into_iter().map(|(k, v)| (k.to_string(), v.to_string())).collect()
}

#[test]
fn fields_are_found_in_any_case() {
    let mut f = FieldLines::new();
    f.set("Content-Type", "text/html");
    assert_eq!(f.get("content-type"), Some("text/html"));
    assert_eq!(f.get("CONTENT-TYPE"), Some("text/html"));
    assert_eq!(f.get("content-length"), None);
}

#[test]
fn a_second_value_is_appended() {
    let mut f = FieldLines::new();
    f.set("Accept", "a");
    f.set("X", "1");
    f.set("ACCEPT", "b");
    assert_eq!(f.get("accept"), Some("a, b"));
    assert_eq!(f.get("x"), Some("1"));
    assert_eq!(f.len(), 2);
}

#[test]
fn removed_fields_are_gone() {
    let mut f = FieldLines::new();
    f.set("a", "1");
    f.set("b", "2");
    assert_eq!(f.remove("A"), Some("1".to_string()));
    assert_eq!(f.remove("A"), None);
    assert_eq!(f.get("a"), None);
    assert_eq!(f.get("b"), Some("2"));
}

#[test]
fn fields_go_on_the_wire_in_order() {
    let mut f = FieldLines::new();
    f.set("Host", "example.org");
    f.set("X-Empty", "");
    assert_eq!(&f.to_bytes()[..], b"host: example.org\r\nx-empty: \r\n");
}

#[test]
fn written_fields_are_read_back() {
    let mut f = FieldLines::new();
    f.set("host", "example.org");
    f.set("cookie", "a=1; b=2");
    f.set("x-empty", "");
    let again = FieldLines::from(&f.to_bytes()[..]);
    assert_eq!(pairs(&again), pairs(&f));
}

#[test]
fn header_blocks_are_read_line_by_line() {
    let f = FieldLines::from(
        b"Host:  a \r\nno colon\r\n: nameless\r\nX:\tb\r\nhost: c\r\nbad: \xff\r\n\r\n",
    );
    assert_eq!(
        pairs(&f),
        vec![("host".to_string(), "a, c".to_string()), ("x".to_string(), "b".to_string())]
    );
}

#[test]
fn header_blocks_may_end_in_any_line_end() {
    for block in [&b"a: 1\nb: 2\n\n"[..], &b"a: 1\nb: 2\n"[..], &b"a: 1\r\nb: 2"[..], &b"a: 1\r\nb: 2\r\n"[..]] {
        let f = FieldLines::from(block);
        assert_eq!(f.get("a"), Some("1"));
        assert_eq!(f.get("b"), Some("2"));
        assert_eq!(f.len(), 2);
    }
    assert_eq!(FieldLines::from(b"").len(), 0);
}

#[test]
fn values_keep_their_letters() {
    let f = FieldLines::from("X-Name: \u{c9}t\u{e9} \u{1f600}\r\n".as_bytes());
    assert_eq!(f.get("x-name"), Some("\u{c9}t\u{e9} \u{1f600}"));
}

#[test]
fn what_was_read_is_read_again() {
    let f = FieldLines::from(b"Host :\t a \r\nX: 1\r\rx\r\nhost: b\r\nE:\r\n\r\n");
    let again = FieldLines::from(&f.to_bytes()[..]);
    assert_eq!(pairs(&again), pairs(&f));
    let f = FieldLines::from(b"a: 1\r\na:\r\n\r\n");
    assert_eq!(f.get("a"), Some("1, "));
    let again = FieldLines::from(&f.to_bytes()[..]);
    assert_eq!(again.get("a"), Some("1,"));
}

use http::cookie_store::{CookieExpiration, CookieOptions, CookieStore, ExpireExt, SameSite};

#[test]
fn cookies_are_set_read_and_removed() {
    let mut c = CookieStore::new();
    c.set("  a\u{2003}", "1", None);
    c.set("b", "2", None);
    c.set("a", "3", None);
    assert_eq!(c.get("a"), Some("3"));
    assert_eq!(c.get("b"), Some("2"));
    assert_eq!(c.remove("a"), Some("3".to_string()));
    assert_eq!(c.remove("a"), None);
    assert_eq!(c.get("a"), None);
    assert_eq!(c.get("b"), Some("2"));
}

#[test]
fn cookie_headers_are_read() {
    let c = CookieStore::from(b" a = 1 ;b=2=3;; =x; flag ;\tc=\xff; a=4");
    assert_eq!(c.get("a"), Some("4"));
    assert_eq!(c.get("b"), Some("2=3"));
    assert_eq!(c.get("flag"), Some(""));
    assert_eq!(c.get("c"), None);
    assert_eq!(c.get(""), None);
}

#[test]
fn cookies_are_written_with_their_attributes() {
    let mut c = CookieStore::new();
    c.set(
        "id",
        "7",
        Some(CookieOptions {
            domain: Some("example.org".to_string()),
            path: Some("/".to_string()),
            expires: Some(1u64.days()),
            max_age: Some(2u64.hours()),
            secure: true,
            http_only: true,
            same_site: Some(SameSite::Lax),
        }),
    );
    c.set("plain", "x", None);
    c.set("bare", "", Some(CookieOptions::default()));
    assert!(c.in_range(0));
    let text = c.to_bytes(784111777);
    assert_eq!(
        std::str::from_utf8(&text).unwrap(),
        "Set-Cookie: id=7; Domain=example.org; Path=/; Expires=Mon, 07 Nov 1994 08:49:37 GMT; \
         Max-Age=7200; Secure; HttpOnly; SameSite=Lax\r\n\
         Set-Cookie: plain=x\r\nSet-Cookie: bare=\r\n"
    );
    assert_eq!(CookieStore::new().to_bytes(5).len(), 0);
}

#[test]
fn spans_and_moments() {
    assert_eq!(5u64.seconds().as_secs_duration(100), 5);
    assert_eq!(2u64.minutes().as_secs_duration(100), 120);
    assert_eq!(2u64.hours().as_secs_duration(100), 7200);
    assert_eq!(1u64.days().as_secs_duration(100), 86400);
    assert_eq!(1u64.months().as_secs_duration(100), 2592000);
    assert_eq!(1u64.years().as_secs_duration(100), 31536000);
    assert_eq!(CookieExpiration::At(150).as_secs_duration(100), 50);
    assert_eq!(CookieExpiration::At(50).as_secs_duration(100), 0);
    assert_eq!(CookieExpiration::At(50).timestamp(100), 50);
    assert_eq!(1u64.minutes().timestamp(100), 160);
}

#[test]
fn spans_that_are_too_long_are_noticed() {
    assert_eq!(u64::MAX.years().checked_secs(0), None);
    assert_eq!(u64::MAX.seconds().checked_secs(0), Some(u64::MAX));
    assert_eq!(u64::MAX.seconds().checked_timestamp(1), None);
    assert_eq!(CookieExpiration::At(u64::MAX).checked_timestamp(1), Some(u64::MAX));
    let mut c = CookieStore::new();
    c.set(
        "a",
        "b",
        Some(CookieOptions { expires: Some(u64::MAX.seconds()), ..CookieOptions::default() }),
    );
    assert!(!c.in_range(1));
    assert!(c.in_range(0));
}

#[test]
fn same_site_names() {
    assert_eq!(SameSite::Strict.as_str(), "Strict");
    assert_eq!(SameSite::Lax.as_str(), "Lax");
    assert_eq!(SameSite::Unrestricted.as_str(), "None");
}

#[test]
fn cookies_that_come_back_are_read_as_they_were() {
    let c = CookieStore::from(b"b=2; a=x=y; c=");
    assert_eq!(
        std::str::from_utf8(&c.to_bytes(0)).unwrap(),
        "Set-Cookie: b=2\r\nSet-Cookie: a=x=y\r\nSet-Cookie: c=\r\n"
    );
}

use http::date::format_http_date;
use http::numbers::{format_hex, format_u64, number_text, parse_hex, parse_number};

#[test]
fn dates_are_written_as_http_writes_them() {
    assert_eq!(format_http_date(0), "Thu, 01 Jan 1970 00:00:00 GMT");
    assert_eq!(format_http_date(784111777), "Sun, 06 Nov 1994 08:49:37 GMT");
    assert_eq!(format_http_date(951782400), "Tue, 29 Feb 2000 00:00:00 GMT");
    assert_eq!(format_http_date(951868799), "Tue, 29 Feb 2000 23:59:59 GMT");
    assert_eq!(format_http_date(4107542400), "Mon, 01 Mar 2100 00:00:00 GMT");
    assert_eq!(format_http_date(1735689599), "Tue, 31 Dec 2024 23:59:59 GMT");
    assert_eq!(format_http_date(253402300800), "Sat, 01 Jan 10000 00:00:00 GMT");
}

#[test]
fn decimal_digits() {
    assert_eq!(format_u64(0), b"0".to_vec());
    assert_eq!(format_u64(75), b"75".to_vec());
    assert_eq!(format_u64(u64::MAX), b"18446744073709551615".to_vec());
    assert_eq!(number_text(120), "120");
}

#[test]
fn hexadecimal_digits_with_a_line_end() {
    assert_eq!(format_hex(0), b"0\r\n".to_vec());
    assert_eq!(format_hex(255), b"ff\r\n".to_vec());
    assert_eq!(format_hex(65536), b"10000\r\n".to_vec());
    assert_eq!(format_hex(usize::MAX), b"ffffffffffffffff\r\n".to_vec());
}

#[test]
fn decimal_numbers_are_read() {
    assert_eq!(parse_number(b"0", u64::MAX), Some(0));
    assert_eq!(parse_number(b"+42", u64::MAX), Some(42));
    assert_eq!(parse_number(b"007", u64::MAX), Some(7));
    assert_eq!(parse_number(b"", u64::MAX), None);
    assert_eq!(parse_number(b"+", u64::MAX), None);
    assert_eq!(parse_number(b"-1", u64::MAX), None);
    assert_eq!(parse_number(b" 1", u64::MAX), None);
    assert_eq!(parse_number(b"18446744073709551615", u64::MAX), Some(u64::MAX));
    assert_eq!(parse_number(b"18446744073709551616", u64::MAX), None);
    assert_eq!(parse_number(b"256", 255), None);
    for n in [0u64, 9, 10, 12345] {
        assert_eq!(parse_number(&format_u64(n), u64::MAX), Some(n));
    }
}

#[test]
fn hexadecimal_numbers_are_read() {
    assert_eq!(parse_hex(b"1aF", usize::MAX), Some(0x1af));
    assert_eq!(parse_hex(b"", usize::MAX), None);
    assert_eq!(parse_hex(b"g", usize::MAX), None);
    assert_eq!(parse_hex(b"100", 255), None);
    assert_eq!(parse_hex(b"ffffffffffffffff", usize::MAX), Some(usize::MAX));
    assert_eq!(parse_hex(b"10000000000000000", usize::MAX), None);
}

#[test]
fn dates_before_the_year_10000_have_29_bytes_and_differ() {
    let moments = [0, 1, 59, 60, 3600, 86399, 86400, 951782400, 4107542400, 253402300799];
    let texts: Vec<String> = moments.iter().map(|m| format_http_date(*m)).collect();
    for (i, a) in texts.iter().enumerate() {
        assert_eq!(a.len(), 29);
        for b in &texts[i + 1..] {
            assert_ne!(a, b);
        }
    }
    assert_eq!(texts[9], "Fri, 31 Dec 9999 23:59:59 GMT");
    assert_eq!(format_http_date(u64::MAX).len(), 37);
}

//! Calls into other crates, and into the parts of the standard library that
//! have no specification of their own.

use crate::date::signed_date;
use crate::numbers::hex_digit;
use base64::Engine;
use bytes::{Bytes, BytesMut};
use vstd::prelude::*;
use vstd::string::StringSliceAdditionalSpecFns;
use vstd::utf8::*;

verus! {

// ── memchr ─────────────────────────────────────────────────────────────────

/// Calls `memchr::memchr`: the index of the first occurrence of `needle` in
/// `haystack`, if there is one.
#[verifier::external_body]
pub(crate) fn find_byte(needle: u8, haystack: &[u8]) -> (r: Option<usize>)
    ensures
        match r {
            Some(i) => i < haystack@.len() && haystack@[i as int] == needle
                && forall|j: int| 0 <= j < i ==> haystack@[j] != needle,
            None => forall|j: int| 0 <= j < haystack@.len() ==> haystack@[j] != needle,
        },
{
    memchr::memchr(needle, haystack)
}

/// `needle` stands in `haystack` at index `i`.
pub open spec fn occurs_at(haystack: Seq<u8>, needle: Seq<u8>, i: int) -> bool {
    0 <= i && i + needle.len() <= haystack.len() && haystack.subrange(i, i + needle.len()) == needle
}

/// Calls `memchr::memmem::find`: the index of the first occurrence of `needle`
/// as a contiguous run of bytes in `haystack`, if there is one.
#[verifier::external_body]
pub(crate) fn find_bytes(haystack: &[u8], needle: &[u8]) -> (r: Option<usize>)
    ensures
        match r {
            Some(i) => occurs_at(haystack@, needle@, i as int)
                && forall|j: int| 0 <= j < i ==> !occurs_at(haystack@, needle@, j),
            None => forall|j: int| !occurs_at(haystack@, needle@, j),
        },
{
    memchr::memmem::find(haystack, needle)
}

// ── bytes ──────────────────────────────────────────────────────────────────

/// `bytes::Bytes`, a cheaply cloned run of bytes.
#[verifier::external_type_specification]
#[verifier::external_body]
pub struct ExBytes(Bytes);

/// `bytes::BytesMut`, a growing run of bytes.
#[verifier::external_type_specification]
#[verifier::external_body]
pub struct ExBytesMut(BytesMut);

/// The bytes that a `Bytes` holds.
pub uninterp spec fn octets(b: Bytes) -> Seq<u8>;

/// The bytes that a `BytesMut` holds.
pub uninterp spec fn octets_mut(b: BytesMut) -> Seq<u8>;

/// Calls `<Bytes as From<Vec<u8>>>::from`: the result holds the vector's bytes.
#[verifier::external_body]
pub(crate) fn bytes_from_vec(v: Vec<u8>) -> (r: Bytes)
    ensures
        octets(r) == v@,
{
    Bytes::from(v)
}

/// Calls `<Bytes as From<&'static str>>::from`: the result holds the string's
/// UTF-8 bytes.
#[verifier::external_body]
pub(crate) fn bytes_from_str(s: &'static str) -> (r: Bytes)
    ensures
        octets(r) == s.spec_bytes(),
{
    Bytes::from(s)
}

/// Calls `Bytes::clone`: the result holds the same bytes.
#[verifier::external_body]
pub(crate) fn bytes_clone(b: &Bytes) -> (r: Bytes)
    ensures
        octets(r) == octets(*b),
{
    b.clone()
}

/// Calls `<Bytes as AsRef<[u8]>>::as_ref`: the bytes held, as a slice.
#[verifier::external_body]
pub(crate) fn bytes_as_slice(b: &Bytes) -> (r: &[u8])
    ensures
        r@ == octets(*b),
{
    b.as_ref()
}

/// Calls `Bytes::slice`: the bytes from `from` up to `to`, which lie within the
/// bytes held (otherwise `Bytes::slice` panics).
#[verifier::external_body]
pub(crate) fn bytes_slice(b: &Bytes, from: usize, to: usize) -> (r: Bytes)
    requires
        from <= to <= octets(*b).len(),
    ensures
        octets(r) == octets(*b).subrange(from as int, to as int),
{
    b.slice(from..to)
}

/// Calls `BytesMut::with_capacity`: an empty buffer. A capacity that no
/// allocation can have is left out (with it the call panics).
#[verifier::external_body]
pub(crate) fn bytes_mut_with_capacity(capacity: usize) -> (r: BytesMut)
    requires
        capacity <= 0x7fff_ffff,
    ensures
        octets_mut(r) == Seq::<u8>::empty(),
{
    BytesMut::with_capacity(capacity)
}

/// Calls `BytesMut::extend_from_slice`: appends the bytes of `data`.
#[verifier::external_body]
pub(crate) fn bytes_mut_extend(b: &mut BytesMut, data: &[u8])
    ensures
        octets_mut(*final(b)) == octets_mut(*old(b)) + data@,
{
    b.extend_from_slice(data)
}

/// Calls `<BytesMut as AsRef<[u8]>>::as_ref`: the bytes held, as a slice.
#[verifier::external_body]
pub(crate) fn bytes_mut_as_slice(b: &BytesMut) -> (r: &[u8])
    ensures
        r@ == octets_mut(*b),
{
    b.as_ref()
}

/// Calls `BytesMut::split_to`: takes the first `at` bytes out of the buffer and
/// leaves the others in it. There are at least `at` bytes (otherwise
/// `BytesMut::split_to` panics).
#[verifier::external_body]
pub(crate) fn bytes_mut_split_to(b: &mut BytesMut, at: usize) -> (r: BytesMut)
    requires
        at <= octets_mut(*old(b)).len(),
    ensures
        octets_mut(r) == octets_mut(*old(b)).subrange(0, at as int),
        octets_mut(*final(b)) == octets_mut(*old(b)).subrange(
            at as int,
            octets_mut(*old(b)).len() as int,
        ),
{
    b.split_to(at)
}

/// Calls `BytesMut::freeze`: the same bytes, no longer growing.
#[verifier::external_body]
pub(crate) fn bytes_mut_freeze(b: BytesMut) -> (r: Bytes)
    ensures
        octets(r) == octets_mut(b),
{
    b.freeze()
}

// ── chrono ─────────────────────────────────────────────────────────────────

/// Calls `chrono::DateTime::format` on `chrono::DateTime::from_timestamp(secs,
/// 0)`, and `to_string` on what it returns: with this format, the moment is
/// written as HTTP writes it, with a plus sign in front of a year of more than
/// four digits. The years of `chrono` end with 262142.
#[verifier::external_body]
pub(crate) fn chrono_date(secs: u64, format: &str) -> (r: String)
    requires
        secs <= 8_210_266_876_799,
        format@ == "%a, %d %b %Y %H:%M:%S GMT"@,
    ensures
        encode_utf8(r@) == signed_date(secs as int),
{
    chrono::DateTime::from_timestamp(secs as i64, 0).unwrap().format(format).to_string()
}

// ── form_urlencoded ────────────────────────────────────────────────────────

/// The names and values that a query holds, percent-decoded, texts in UTF-8.
pub uninterp spec fn form_pairs(query: Seq<u8>) -> Seq<(Seq<u8>, Seq<u8>)>;

/// The pairs of strings in `v`, in UTF-8.
pub open spec fn utf8_pairs(v: Seq<(String, String)>) -> Seq<(Seq<u8>, Seq<u8>)> {
    v.map_values(|p: (String, String)| (encode_utf8(p.0@), encode_utf8(p.1@)))
}

/// Calls `form_urlencoded::parse`: the names and values that a query in the
/// syntax of `application/x-www-form-urlencoded` holds, in the order in which
/// they stand there. An empty query holds none.
#[verifier::external_body]
pub(crate) fn parse_form(query: &[u8]) -> (r: Vec<(String, String)>)
    ensures
        utf8_pairs(r@) == form_pairs(query@),
        query@.len() == 0 ==> r@.len() == 0,
{
    form_urlencoded::parse(query).into_owned().collect()
}

// ── uuid ───────────────────────────────────────────────────────────────────

/// The lowest `width` lower-case hexadecimal digits of `n`.
pub open spec fn hex_digits(n: nat, width: nat) -> Seq<u8>
    decreases width,
{
    if width == 0 {
        Seq::empty()
    } else {
        hex_digits(n / 16, (width - 1) as nat).push(hex_digit(n % 16))
    }
}

/// The hyphenated form of a UUID: 8, 4, 4, 4 and 12 hexadecimal digits.
pub open spec fn hyphenated(id: nat) -> Seq<u8> {
    hex_digits(id / 0x1_0000_0000_0000_0000_0000_0000, 8) + "-".spec_bytes()
        + hex_digits(id / 0x1_0000_0000_0000_0000_0000, 4) + "-".spec_bytes()
        + hex_digits(id / 0x1_0000_0000_0000_0000, 4) + "-".spec_bytes()
        + hex_digits(id / 0x1_0000_0000_0000, 4) + "-".spec_bytes() + hex_digits(id, 12)
}

/// Calls `<uuid::Uuid as ToString>::to_string` on `uuid::Uuid::from_u128(id)`:
/// the hyphenated form in lower case, highest digits first.
#[verifier::external_body]
pub(crate) fn uuid_text(id: u128) -> (r: String)
    ensures
        encode_utf8(r@) == hyphenated(id as nat),
{
    uuid::Uuid::from_u128(id).to_string()
}

// ── base64 ─────────────────────────────────────────────────────────────────

/// The base64 digit of value `v`, which is below 64.
pub open spec fn base64_digit(v: int) -> u8 {
    if v < 26 {
        (65 + v) as u8
    } else if v < 52 {
        (71 + v) as u8
    } else if v < 62 {
        (v - 4) as u8
    } else if v == 62 {
        43
    } else {
        47
    }
}

/// The padded base64 form of `s` over the standard alphabet: each three bytes,
/// taken as a number of 24 bits, give four digits.
pub open spec fn base64_text(s: Seq<u8>) -> Seq<u8>
    decreases s.len(),
{
    if s.len() == 0 {
        Seq::empty()
    } else if s.len() == 1 {
        seq![base64_digit(s[0] as int / 4), base64_digit(s[0] as int % 4 * 16), 61, 61]
    } else if s.len() == 2 {
        seq![
            base64_digit(s[0] as int / 4),
            base64_digit(s[0] % 4 * 16 + s[1] / 16),
            base64_digit(s[1] % 16 * 4),
            61,
        ]
    } else {
        seq![
            base64_digit(s[0] as int / 4),
            base64_digit(s[0] % 4 * 16 + s[1] / 16),
            base64_digit(s[1] % 16 * 4 + s[2] / 64),
            base64_digit(s[2] as int % 64),
        ] + base64_text(s.skip(3))
    }
}

/// Calls `base64::engine::general_purpose::STANDARD.encode`: the padded base64
/// form of the bytes over the standard alphabet.
#[verifier::external_body]
pub(crate) fn base64_encode(data: &[u8]) -> (r: String)
    ensures
        encode_utf8(r@) == base64_text(data@),
{
    base64::engine::general_purpose::STANDARD.encode(data)
}

// ── serde_json ─────────────────────────────────────────────────────────────

/// `serde_json::Value`, any JSON value.
#[verifier::external_type_specification]
#[verifier::external_body]
pub struct ExJsonValue(serde_json::Value);

/// `serde_json::Map`, a JSON object.
#[verifier::external_type_specification]
#[verifier::external_body]
#[verifier::reject_recursive_types(K)]
#[verifier::reject_recursive_types(V)]
pub struct ExJsonMap<K, V>(serde_json::Map<K, V>);

/// The JSON value that a text holds, where it holds one.
pub uninterp spec fn json_value(text: Seq<u8>) -> Option<serde_json::Value>;

/// The compact JSON text of a value.
pub uninterp spec fn json_text(value: serde_json::Value) -> Seq<u8>;

/// The compact JSON text of an object.
pub uninterp spec fn json_object_text(object: serde_json::Map<String, serde_json::Value>) -> Seq<u8>;

/// Calls `serde_json::from_slice` for a `serde_json::Value`: the JSON value that
/// the bytes hold, where they are one JSON text.
#[verifier::external_body]
pub(crate) fn json_from_slice(text: &[u8]) -> (r: Option<serde_json::Value>)
    ensures
        r == json_value(text@),
{
    serde_json::from_slice(text).ok()
}

/// Calls `serde_json::to_vec` on a value: its compact JSON text. On a value,
/// whose keys are strings, the call does not fail.
#[verifier::external_body]
pub(crate) fn json_to_vec(value: &serde_json::Value) -> (r: Vec<u8>)
    ensures
        r@ == json_text(*value),
{
    serde_json::to_vec(value).unwrap()
}

/// Calls `serde_json::to_vec` on an object: its compact JSON text. On an object,
/// whose keys are strings, the call does not fail.
#[verifier::external_body]
pub(crate) fn json_object_to_vec(
    object: &serde_json::Map<String, serde_json::Value>,
) -> (r: Vec<u8>)
    ensures
        r@ == json_object_text(*object),
{
    serde_json::to_vec(object).unwrap()
}

// ── std ────────────────────────────────────────────────────────────────────

/// `std::str::Utf8Error`, which says where bytes stop being UTF-8.
#[verifier::external_type_specification]
#[verifier::external_body]
pub struct ExUtf8Error(std::str::Utf8Error);

/// What `Utf8Error::valid_up_to` returns.
pub uninterp spec fn valid_up_to(e: std::str::Utf8Error) -> nat;

/// What `<std::str::Utf8Error as ToString>::to_string` returns.
pub uninterp spec fn utf8_error_words(e: std::str::Utf8Error) -> Seq<char>;

/// Calls `<std::str::Utf8Error as ToString>::to_string`: a text that depends on
/// the error alone.
#[verifier::external_body]
pub(crate) fn utf8_error_text(e: &std::str::Utf8Error) -> (r: String)
    ensures
        r@ == utf8_error_words(*e),
{
    e.to_string()
}

/// The first `n` bytes of `s` are valid UTF-8, and no longer run from its start is.
pub open spec fn valid_prefix_end(s: Seq<u8>, n: nat) -> bool {
    &&& n <= s.len()
    &&& valid_utf8(s.take(n as int))
    &&& forall|m: int| n < m <= s.len() ==> !valid_utf8(#[trigger] s.take(m))
}

/// Calls `std::str::from_utf8`: the text that the bytes encode, exactly where
/// they are valid UTF-8. The error gives the index up to which they are: the
/// largest one before which the bytes are valid on their own.
#[verifier::external_body]
pub(crate) fn str_from_utf8(v: &[u8]) -> (r: Result<&str, std::str::Utf8Error>)
    ensures
        r is Ok <==> valid_utf8(v@),
        r matches Ok(s) ==> s.spec_bytes() == v@,
        r matches Err(e) ==> valid_prefix_end(v@, valid_up_to(e)),
{
    std::str::from_utf8(v)
}

/// A character of the Unicode property White_Space.
pub open spec fn white_space(c: char) -> bool {
    let n = c as u32;
    9 <= n <= 13 || n == 0x20 || n == 0x85 || n == 0xa0 || n == 0x1680 || 0x2000 <= n <= 0x200a
        || n == 0x2028 || n == 0x2029 || n == 0x202f || n == 0x205f || n == 0x3000
}

/// `s` without the white space that it starts with.
pub open spec fn strip_front(s: Seq<char>) -> Seq<char>
    decreases s.len(),
{
    if s.len() > 0 && white_space(s[0]) {
        strip_front(s.skip(1))
    } else {
        s
    }
}

/// `s` without the white space that it ends with.
pub open spec fn strip_back(s: Seq<char>) -> Seq<char>
    decreases s.len(),
{
    if s.len() > 0 && white_space(s.last()) {
        strip_back(s.drop_last())
    } else {
        s
    }
}

/// `s` without surrounding white space.
pub open spec fn stripped(s: Seq<char>) -> Seq<char> {
    strip_back(strip_front(s))
}

/// Calls `str::trim`: the text without leading and trailing characters of the
/// Unicode property White_Space.
#[verifier::external_body]
pub(crate) fn trim(s: &str) -> (r: &str)
    ensures
        r@ == stripped(s@),
{
    s.trim()
}

/// `std::io::Error`, a failed read or write.
#[verifier::external_type_specification]
#[verifier::external_body]
pub struct ExIoError(std::io::Error);

/// Calls `<std::io::Error as ToString>::to_string`. The text comes from the
/// operating system, so nothing is said of it.
#[verifier::external_body]
pub(crate) fn io_error_text(e: &std::io::Error) -> (r: String) {
    e.to_string()
}

} // verus!

//! Cookies.

use crate::date::{format_http_date, http_date};
use crate::numbers::{decimal, number_text};
use crate::outside::{
    bytes_mut_extend, bytes_mut_freeze, bytes_mut_with_capacity, octets, octets_mut, str_from_utf8,
    stripped,
};
use crate::text::{
    after, blank, lemma_position, lemma_position_is, lemma_seven, lemma_trim_end,
    lemma_trim_start, position, position_of, rest_after, str_equal, strip, trim_ascii, trim_end, trim_start, trimmed,
};
use bytes::{Bytes, BytesMut};
use vstd::prelude::*;
use vstd::slice::slice_subrange;
use vstd::string::StringSliceAdditionalSpecFns;
use vstd::utf8::*;

verus! {

/// When a cookie goes along with requests from other sites.
#[derive(Debug, Clone, Copy, PartialEq, Eq, Structural)]
pub enum SameSite {
    Strict,
    Lax,
    Unrestricted,
}

impl SameSite {
    /// The attribute's value on the wire.
    pub open spec fn text(self) -> Seq<u8> {
        match self {
            SameSite::Strict => "Strict".spec_bytes(),
            SameSite::Lax => "Lax".spec_bytes(),
            SameSite::Unrestricted => "None".spec_bytes(),
        }
    }

    pub fn as_str(&self) -> (r: &'static str)
        ensures
            r.spec_bytes() == self.text(),
    {
        match self {
            SameSite::Strict => "Strict",
            SameSite::Lax => "Lax",
            SameSite::Unrestricted => "None",
        }
    }
}

/// When a cookie expires: after a span of time, or at a moment given in seconds
/// since the start of 1970.
#[derive(Debug, Clone, Copy, PartialEq, Eq, Structural)]
pub enum CookieExpiration {
    Seconds(u64),
    Minutes(u64),
    Hours(u64),
    Days(u64),
    Months(u64),
    Years(u64),
    At(u64),
}

impl CookieExpiration {
    /// How many seconds are left at the moment `now`. A month has 30 days and a
    /// year 365.
    pub open spec fn secs_left(self, now: int) -> int {
        match self {
            CookieExpiration::Seconds(s) => s as int,
            CookieExpiration::Minutes(m) => m * 60,
            CookieExpiration::Hours(h) => h * 3600,
            CookieExpiration::Days(d) => d * 86400,
            CookieExpiration::Months(m) => m * 2592000,
            CookieExpiration::Years(y) => y * 31536000,
            CookieExpiration::At(ts) => if ts > now {
                ts - now
            } else {
                0
            },
        }
    }

    /// The moment of expiry, in seconds since the start of 1970, seen from the
    /// moment `now`.
    pub open spec fn moment(self, now: int) -> int {
        match self {
            CookieExpiration::At(ts) => ts as int,
            _ => now + self.secs_left(now),
        }
    }

    /// How many seconds are left at the moment `now`.
    pub fn as_secs_duration(&self, now: u64) -> (r: u64)
        requires
            self.secs_left(now as int) <= u64::MAX,
        ensures
            r == self.secs_left(now as int),
    {
        match self {
            CookieExpiration::Seconds(s) => *s,
            CookieExpiration::Minutes(m) => *m * 60,
            CookieExpiration::Hours(h) => *h * 3600,
            CookieExpiration::Days(d) => *d * 86400,
            CookieExpiration::Months(m) => *m * 2592000,
            CookieExpiration::Years(y) => *y * 31536000,
            CookieExpiration::At(ts) => if *ts > now {
                *ts - now
            } else {
                0
            },
        }
    }

    /// The moment of expiry, seen from the moment `now`.
    pub fn timestamp(&self, now: u64) -> (r: u64)
        requires
            self.moment(now as int) <= u64::MAX,
        ensures
            r == self.moment(now as int),
    {
        if let CookieExpiration::At(ts) = self {
            return *ts;
        }
        now + self.as_secs_duration(now)
    }

    /// How many seconds are left at the moment `now`, where that is a number of
    /// 64 bits.
    pub fn checked_secs(&self, now: u64) -> (r: Option<u64>)
        ensures
            match r {
                Some(n) => n == self.secs_left(now as int),
                None => self.secs_left(now as int) > u64::MAX,
            },
    {
        match self {
            CookieExpiration::Seconds(s) => Some(*s),
            CookieExpiration::Minutes(m) => m.checked_mul(60),
            CookieExpiration::Hours(h) => h.checked_mul(3600),
            CookieExpiration::Days(d) => d.checked_mul(86400),
            CookieExpiration::Months(m) => m.checked_mul(2592000),
            CookieExpiration::Years(y) => y.checked_mul(31536000),
            CookieExpiration::At(_) => Some(self.as_secs_duration(now)),
        }
    }

    /// The moment of expiry, seen from the moment `now`, where it is a number of
    /// 64 bits.
    pub fn checked_timestamp(&self, now: u64) -> (r: Option<u64>)
        ensures
            match r {
                Some(n) => n == self.moment(now as int),
                None => self.moment(now as int) > u64::MAX,
            },
    {
        if let CookieExpiration::At(ts) = self {
            return Some(*ts);
        }
        match self.checked_secs(now) {
            Some(n) => now.checked_add(n),
            None => None,
        }
    }
}

/// Spans of time until a cookie expires.
pub trait ExpireExt {
    fn seconds(self) -> CookieExpiration;

    fn minutes(self) -> CookieExpiration;

    fn hours(self) -> CookieExpiration;

    fn days(self) -> CookieExpiration;

    fn months(self) -> CookieExpiration;

    fn years(self) -> CookieExpiration;
}

impl ExpireExt for u64 {
    fn seconds(self) -> (r: CookieExpiration)
        ensures
            r == CookieExpiration::Seconds(self),
    {
        CookieExpiration::Seconds(self)
    }

    fn minutes(self) -> (r: CookieExpiration)
        ensures
            r == CookieExpiration::Minutes(self),
    {
        CookieExpiration::Minutes(self)
    }

    fn hours(self) -> (r: CookieExpiration)
        ensures
            r == CookieExpiration::Hours(self),
    {
        CookieExpiration::Hours(self)
    }

    fn days(self) -> (r: CookieExpiration)
        ensures
            r == CookieExpiration::Days(self),
    {
        CookieExpiration::Days(self)
    }

    fn months(self) -> (r: CookieExpiration)
        ensures
            r == CookieExpiration::Months(self),
    {
        CookieExpiration::Months(self)
    }

    fn years(self) -> (r: CookieExpiration)
        ensures
            r == CookieExpiration::Years(self),
    {
        CookieExpiration::Years(self)
    }
}

/// The attributes of a cookie.
#[derive(Debug, Clone)]
pub struct CookieOptions {
    pub domain: Option<String>,
    pub path: Option<String>,
    pub expires: Option<CookieExpiration>,
    pub max_age: Option<CookieExpiration>,
    pub secure: bool,
    pub http_only: bool,
    pub same_site: Option<SameSite>,
}

impl Default for CookieOptions {
    /// No attribute at all.
    fn default() -> (r: CookieOptions)
        ensures
            r@ == no_attributes(),
    {
        CookieOptions {
            domain: None,
            path: None,
            expires: None,
            max_age: None,
            secure: false,
            http_only: false,
            same_site: None,
        }
    }
}

/// The attributes of a cookie, texts in UTF-8.
pub struct Attributes {
    pub domain: Option<Seq<u8>>,
    pub path: Option<Seq<u8>>,
    pub expires: Option<CookieExpiration>,
    pub max_age: Option<CookieExpiration>,
    pub secure: bool,
    pub http_only: bool,
    pub same_site: Option<SameSite>,
}

pub open spec fn no_attributes() -> Attributes {
    Attributes {
        domain: None,
        path: None,
        expires: None,
        max_age: None,
        secure: false,
        http_only: false,
        same_site: None,
    }
}

pub open spec fn optional_text(s: Option<String>) -> Option<Seq<u8>> {
    match s {
        Some(s) => Some(encode_utf8(s@)),
        None => None,
    }
}

impl View for CookieOptions {
    type V = Attributes;

    open spec fn view(&self) -> Attributes {
        Attributes {
            domain: optional_text(self.domain),
            path: optional_text(self.path),
            expires: self.expires,
            max_age: self.max_age,
            secure: self.secure,
            http_only: self.http_only,
            same_site: self.same_site,
        }
    }
}

impl Attributes {
    /// The moment and the span that are written out are numbers of 64 bits.
    pub open spec fn in_range(self, now: int) -> bool {
        &&& self.expires matches Some(e) ==> e.moment(now) <= u64::MAX
        &&& self.max_age matches Some(e) ==> e.secs_left(now) <= u64::MAX
    }

    /// The attributes as they stand in a `Set-Cookie` line at the moment `now`.
    pub open spec fn text(self, now: int) -> Seq<u8> {
        text_attribute("; Domain=".spec_bytes(), self.domain)
            + text_attribute("; Path=".spec_bytes(), self.path)
            + text_attribute("; Expires=".spec_bytes(), moment_text(self.expires, now))
            + text_attribute("; Max-Age=".spec_bytes(), span_text(self.max_age, now))
            + flag_attribute("; Secure".spec_bytes(), self.secure)
            + flag_attribute("; HttpOnly".spec_bytes(), self.http_only)
            + text_attribute("; SameSite=".spec_bytes(), same_site_text(self.same_site))
    }
}

/// A label and a value, where there is one.
pub open spec fn text_attribute(label: Seq<u8>, value: Option<Seq<u8>>) -> Seq<u8> {
    match value {
        Some(v) => label + v,
        None => Seq::empty(),
    }
}

/// A label, where `on` holds.
pub open spec fn flag_attribute(label: Seq<u8>, on: bool) -> Seq<u8> {
    if on {
        label
    } else {
        Seq::empty()
    }
}

/// The moment of expiry as a date.
pub open spec fn moment_text(e: Option<CookieExpiration>, now: int) -> Option<Seq<u8>> {
    match e {
        Some(e) => Some(http_date(e.moment(now))),
        None => None,
    }
}

/// The seconds left in decimal digits.
pub open spec fn span_text(e: Option<CookieExpiration>, now: int) -> Option<Seq<u8>> {
    match e {
        Some(e) => Some(decimal(e.secs_left(now) as nat)),
        None => None,
    }
}

pub open spec fn same_site_text(s: Option<SameSite>) -> Option<Seq<u8>> {
    match s {
        Some(s) => Some(s.text()),
        None => None,
    }
}

/// A cookie's value and attributes.
#[derive(Debug, Clone)]
pub struct Cookie {
    pub value: String,
    pub options: Option<CookieOptions>,
}

/// A cookie: its name, its value and its attributes, texts in UTF-8.
pub struct NamedCookie {
    pub name: Seq<u8>,
    pub value: Seq<u8>,
    pub attributes: Option<Attributes>,
}

pub open spec fn optional_attributes(o: Option<CookieOptions>) -> Option<Attributes> {
    match o {
        Some(o) => Some(o@),
        None => None,
    }
}

pub open spec fn named(entry: (String, Cookie)) -> NamedCookie {
    NamedCookie {
        name: encode_utf8(entry.0@),
        value: encode_utf8(entry.1.value@),
        attributes: optional_attributes(entry.1.options),
    }
}

/// The index of the cookie called `name`, or the number of cookies where there
/// is none.
pub open spec fn cookie_index(cookies: Seq<NamedCookie>, name: Seq<u8>) -> int
    decreases cookies.len(),
{
    if cookies.len() == 0 {
        0
    } else if cookies[0].name == name {
        0
    } else {
        1 + cookie_index(cookies.skip(1), name)
    }
}

/// The value of the cookie called `name`.
pub open spec fn cookie_value(cookies: Seq<NamedCookie>, name: Seq<u8>) -> Option<Seq<u8>> {
    let i = cookie_index(cookies, name);
    if i < cookies.len() {
        Some(cookies[i].value)
    } else {
        None
    }
}

/// The cookies with `cookie` in place of one of the same name, or at the end.
pub open spec fn put_cookie(cookies: Seq<NamedCookie>, cookie: NamedCookie) -> Seq<NamedCookie> {
    let i = cookie_index(cookies, cookie.name);
    if i < cookies.len() {
        cookies.update(i, cookie)
    } else {
        cookies.push(cookie)
    }
}

/// The cookies without the one called `name`.
pub open spec fn drop_cookie(cookies: Seq<NamedCookie>, name: Seq<u8>) -> Seq<NamedCookie> {
    let i = cookie_index(cookies, name);
    if i < cookies.len() {
        cookies.remove(i)
    } else {
        cookies
    }
}

/// No name occurs twice.
pub open spec fn names_distinct(cookies: Seq<NamedCookie>) -> bool {
    forall|i: int, j: int|
        0 <= i < j < cookies.len() ==> (#[trigger] cookies[i]).name != (#[trigger] cookies[j]).name
}

pub open spec fn attributes_text(a: Option<Attributes>, now: int) -> Seq<u8> {
    match a {
        Some(a) => a.text(now),
        None => Seq::empty(),
    }
}

/// The line that sets a cookie, at the moment `now`.
pub open spec fn cookie_line(cookie: NamedCookie, now: int) -> Seq<u8> {
    "Set-Cookie: ".spec_bytes() + cookie.name + "=".spec_bytes() + cookie.value
        + attributes_text(cookie.attributes, now) + "\r\n".spec_bytes()
}

/// The lines that set the cookies, at the moment `now`.
pub open spec fn cookie_block(cookies: Seq<NamedCookie>, now: int) -> Seq<u8>
    decreases cookies.len(),
{
    if cookies.len() == 0 {
        Seq::empty()
    } else {
        cookie_block(cookies.drop_last(), now) + cookie_line(cookies.last(), now)
    }
}

/// Every number that `cookie_block` writes out has 64 bits.
pub open spec fn cookies_in_range(cookies: Seq<NamedCookie>, now: int) -> bool {
    forall|i: int| 0 <= i < cookies.len() ==> ((#[trigger] cookies[i]).attributes matches Some(a) ==> a.in_range(now))
}

/// The name and value that one part of a `Cookie` header holds: what stands
/// before its first equals sign and behind it, without surrounding blanks; a
/// part without an equals sign is a name with an empty value. A part without a
/// name, or that is not UTF-8, holds none.
pub open spec fn pair_in(part: Seq<u8>) -> Option<(Seq<u8>, Seq<u8>)> {
    let pair = trimmed(part, false);
    let eq = position(pair, 61);
    let name = if eq < pair.len() {
        trimmed(pair.take(eq), false)
    } else {
        pair
    };
    let value = if eq < pair.len() {
        trimmed(pair.skip(eq + 1), false)
    } else {
        Seq::empty()
    };
    if name.len() > 0 && valid_utf8(name) && valid_utf8(value) {
        Some((name, value))
    } else {
        None
    }
}

/// `cookies` and, put to them part by part, those that the parts of `s` between
/// semicolons hold.
pub open spec fn cookies_of_parts(cookies: Seq<NamedCookie>, s: Seq<u8>) -> Seq<NamedCookie>
    decreases s.len(),
{
    if s.len() == 0 {
        cookies
    } else {
        proof {
            lemma_position(s, 59);
        }
        let end = position(s, 59);
        let next = match pair_in(s.take(end)) {
            Some(p) => put_cookie(
                cookies,
                NamedCookie { name: p.0, value: p.1, attributes: None },
            ),
            None => cookies,
        };
        cookies_of_parts(next, rest_after(s, end))
    }
}

/// The cookies that a `Cookie` header holds.
pub open spec fn parse_cookies(s: Seq<u8>) -> Seq<NamedCookie> {
    cookies_of_parts(Seq::empty(), s)
}

/// `cookie_index` is the least index at which the name stands.
pub proof fn lemma_cookie_index(cookies: Seq<NamedCookie>, name: Seq<u8>)
    ensures
        0 <= cookie_index(cookies, name) <= cookies.len(),
        cookie_index(cookies, name) < cookies.len() ==> cookies[cookie_index(cookies, name)].name
            == name,
        forall|j: int| 0 <= j < cookie_index(cookies, name) ==> (#[trigger] cookies[j]).name != name,
    decreases cookies.len(),
{
    if cookies.len() > 0 && cookies[0].name != name {
        lemma_cookie_index(cookies.skip(1), name);
        assert forall|j: int| 0 <= j < cookie_index(cookies, name) implies (
        #[trigger] cookies[j]).name != name by {
            if j > 0 {
                assert(cookies.skip(1)[j - 1] == cookies[j]);
            }
        }
    }
}

/// Cookies by name, in the order in which the names first came.
pub struct CookieStore {
    cookies: Vec<(String, Cookie)>,
}

impl View for CookieStore {
    type V = Seq<NamedCookie>;

    closed spec fn view(&self) -> Seq<NamedCookie> {
        self.cookies@.map_values(|e: (String, Cookie)| named(e))
    }
}

impl CookieStore {
    /// No name occurs twice.
    pub open spec fn wf(&self) -> bool {
        names_distinct(self@)
    }

    pub fn new() -> (r: CookieStore)
        ensures
            r.wf(),
            r@ == Seq::<NamedCookie>::empty(),
    {
        let r = CookieStore { cookies: Vec::new() };
        assert(r@ =~= Seq::<NamedCookie>::empty());
        r
    }

    /// The index of the cookie called `key`, or the number of cookies where
    /// there is none.
    fn index_of(&self, key: &str) -> (r: usize)
        ensures
            r == cookie_index(self@, key.spec_bytes()),
            r <= self.cookies@.len(),
    {
        let n: usize = self.cookies.len();
        let mut i: usize = 0;
        while i < n
            invariant
                n == self.cookies@.len(),
                i <= n,
                forall|j: int| 0 <= j < i ==> (#[trigger] self@[j]).name != key.spec_bytes(),
            decreases n - i,
        {
            if str_equal(self.cookies[i].0.as_str(), key) {
                proof {
                    assert(self@[i as int].name == key.spec_bytes());
                    lemma_cookie_index(self@, key.spec_bytes());
                }
                return i;
            }
            i += 1;
        }
        proof {
            lemma_cookie_index(self@, key.spec_bytes());
        }
        n
    }

    fn put(&mut self, name: String, cookie: Cookie)
        requires
            old(self).wf(),
        ensures
            final(self).wf(),
            final(self)@ == put_cookie(old(self)@, named((name, cookie))),
    {
        let ghost before = self@;
        let ghost added = named((name, cookie));
        let i: usize = self.index_of(name.as_str());
        proof {
            lemma_cookie_index(before, added.name);
        }
        if i < self.cookies.len() {
            self.cookies.set(i, (name, cookie));
            assert(self@ =~= before.update(i as int, added));
        } else {
            self.cookies.push((name, cookie));
            assert(self@ =~= before.push(added));
        }
    }

    /// Sets the cookie called `key`, a name without surrounding white space.
    pub fn set(&mut self, key: &str, value: &str, options: Option<CookieOptions>)
        requires
            old(self).wf(),
        ensures
            final(self).wf(),
            final(self)@ == put_cookie(
                old(self)@,
                NamedCookie {
                    name: encode_utf8(stripped(key@)),
                    value: value.spec_bytes(),
                    attributes: optional_attributes(options),
                },
            ),
    {
        self.put(strip(key).to_owned(), Cookie { value: value.to_owned(), options });
    }

    /// The value of the cookie called `key`.
    pub fn get(&self, key: &str) -> (r: Option<&str>)
        ensures
            match r {
                Some(v) => cookie_value(self@, key.spec_bytes()) == Some(v.spec_bytes()),
                None => cookie_value(self@, key.spec_bytes()) is None,
            },
    {
        let i: usize = self.index_of(key);
        if i < self.cookies.len() {
            Some(self.cookies[i].1.value.as_str())
        } else {
            None
        }
    }

    /// Takes the cookie called `key` out, and returns its value.
    pub fn remove(&mut self, key: &str) -> (r: Option<String>)
        requires
            old(self).wf(),
        ensures
            final(self).wf(),
            final(self)@ == drop_cookie(old(self)@, key.spec_bytes()),
            match r {
                Some(v) => cookie_value(old(self)@, key.spec_bytes()) == Some(encode_utf8(v@)),
                None => cookie_value(old(self)@, key.spec_bytes()) is None,
            },
    {
        let ghost before = self@;
        let i: usize = self.index_of(key);
        if i < self.cookies.len() {
            let entry = self.cookies.remove(i);
            assert(self@ =~= before.remove(i as int));
            assert(named(entry) == before[i as int]);
            Some(entry.1.value)
        } else {
            None
        }
    }

    /// Whether every moment and span that `to_bytes` writes out at the moment
    /// `now` is a number of 64 bits.
    pub fn in_range(&self, now: u64) -> (r: bool)
        ensures
            r == cookies_in_range(self@, now as int),
    {
        let n: usize = self.cookies.len();
        for i in 0..n
            invariant
                n == self.cookies@.len(),
                forall|j: int|
                    0 <= j < i ==> ((#[trigger] self@[j]).attributes matches Some(a) ==> a.in_range(
                        now as int,
                    )),
        {
            assert(self@[i as int] == named(self.cookies@[i as int]));
            if let Some(options) = &self.cookies[i].1.options {
                if let Some(e) = &options.expires {
                    if e.checked_timestamp(now).is_none() {
                        return false;
                    }
                }
                if let Some(e) = &options.max_age {
                    if e.checked_secs(now).is_none() {
                        return false;
                    }
                }
            }
        }
        true
    }

    /// The lines that set the cookies, at the moment `now`.
    pub fn to_bytes(&self, now: u64) -> (r: Bytes)
        requires
            cookies_in_range(self@, now as int),
        ensures
            octets(r) == cookie_block(self@, now as int),
    {
        let n: usize = self.cookies.len();
        let mut buf: BytesMut = bytes_mut_with_capacity(0);
        for i in 0..n
            invariant
                n == self.cookies@.len(),
                cookies_in_range(self@, now as int),
                octets_mut(buf) == cookie_block(self@.take(i as int), now as int),
        {
            assert(self@[i as int] == named(self.cookies@[i as int]));
            put_cookie_line(&mut buf, &self.cookies[i].0, &self.cookies[i].1, now);
            assert(self@.take(i + 1).drop_last() =~= self@.take(i as int));
        }
        assert(self@.take(n as int) =~= self@);
        bytes_mut_freeze(buf)
    }

    /// The cookies that a `Cookie` header holds.
    pub fn from(bytes: &[u8]) -> (r: CookieStore)
        ensures
            r.wf(),
            r@ == parse_cookies(bytes@),
    {
        let mut r = CookieStore::new();
        let mut rest: &[u8] = bytes;
        while rest.len() > 0
            invariant
                r.wf(),
                cookies_of_parts(r@, rest@) == parse_cookies(bytes@),
            decreases rest@.len(),
        {
            let end: usize = position_of(rest, 59);
            let part = slice_subrange(rest, 0, end);
            assert(part@ =~= rest@.take(end as int));
            let pair = trim_ascii(part, false);
            let eq: usize = position_of(pair, 61);
            let before = slice_subrange(pair, 0, eq);
            let behind = after(pair, eq);
            assert(before@ =~= pair@.take(eq as int));
            let name: &[u8] = if eq < pair.len() { trim_ascii(before, false) } else { pair };
            let value: &[u8] = if eq < pair.len() { trim_ascii(behind, false) } else { behind };
            if name.len() > 0 {
                if let Ok(name) = str_from_utf8(name) {
                    if let Ok(value) = str_from_utf8(value) {
                        r.put(name.to_owned(), Cookie { value: value.to_owned(), options: None });
                    }
                }
            }
            rest = after(rest, end);
        }
        r
    }
}

/// Appends an attribute that is a text.
fn put_text(buf: &mut BytesMut, label: &str, value: &Option<String>)
    ensures
        octets_mut(*final(buf)) == octets_mut(*old(buf)) + text_attribute(
            label.spec_bytes(),
            optional_text(*value),
        ),
{
    let ghost start = octets_mut(*buf);
    if let Some(value) = value {
        bytes_mut_extend(buf, label.as_bytes());
        bytes_mut_extend(buf, value.as_str().as_bytes());
    }
    assert(octets_mut(*buf) =~= start + text_attribute(
        label.spec_bytes(),
        optional_text(*value),
    ));
}

/// Appends a label where `on` holds.
fn put_flag(buf: &mut BytesMut, label: &str, on: bool)
    ensures
        octets_mut(*final(buf)) == octets_mut(*old(buf)) + flag_attribute(label.spec_bytes(), on),
{
    let ghost start = octets_mut(*buf);
    if on {
        bytes_mut_extend(buf, label.as_bytes());
    }
    assert(octets_mut(*buf) =~= start + flag_attribute(label.spec_bytes(), on));
}

/// Appends the moment of expiry.
fn put_expires(buf: &mut BytesMut, expires: &Option<CookieExpiration>, now: u64)
    requires
        *expires matches Some(e) ==> e.moment(now as int) <= u64::MAX,
    ensures
        octets_mut(*final(buf)) == octets_mut(*old(buf)) + text_attribute(
            "; Expires=".spec_bytes(),
            moment_text(*expires, now as int),
        ),
{
    let text: Option<String> = match expires {
        Some(e) => Some(format_http_date(e.timestamp(now))),
        None => None,
    };
    put_text(buf, "; Expires=", &text);
}

/// Appends the time left.
fn put_max_age(buf: &mut BytesMut, max_age: &Option<CookieExpiration>, now: u64)
    requires
        *max_age matches Some(e) ==> e.secs_left(now as int) <= u64::MAX,
    ensures
        octets_mut(*final(buf)) == octets_mut(*old(buf)) + text_attribute(
            "; Max-Age=".spec_bytes(),
            span_text(*max_age, now as int),
        ),
{
    let text: Option<String> = match max_age {
        Some(e) => Some(number_text(e.as_secs_duration(now))),
        None => None,
    };
    put_text(buf, "; Max-Age=", &text);
}

/// Appends the `SameSite` attribute.
fn put_same_site(buf: &mut BytesMut, same_site: &Option<SameSite>)
    ensures
        octets_mut(*final(buf)) == octets_mut(*old(buf)) + text_attribute(
            "; SameSite=".spec_bytes(),
            same_site_text(*same_site),
        ),
{
    let text: Option<String> = match same_site {
        Some(s) => Some(s.as_str().to_owned()),
        None => None,
    };
    put_text(buf, "; SameSite=", &text);
}

/// Appends the attributes as they stand in a `Set-Cookie` line.
fn put_attributes(buf: &mut BytesMut, options: &CookieOptions, now: u64)
    requires
        options@.in_range(now as int),
    ensures
        octets_mut(*final(buf)) == octets_mut(*old(buf)) + options@.text(now as int),
{
    let ghost start = octets_mut(*buf);
    put_text(buf, "; Domain=", &options.domain);
    put_text(buf, "; Path=", &options.path);
    put_expires(buf, &options.expires, now);
    put_max_age(buf, &options.max_age, now);
    put_flag(buf, "; Secure", options.secure);
    put_flag(buf, "; HttpOnly", options.http_only);
    put_same_site(buf, &options.same_site);
    proof {
        let a = options@;
        lemma_seven(
            start,
            text_attribute("; Domain=".spec_bytes(), a.domain),
            text_attribute("; Path=".spec_bytes(), a.path),
            text_attribute("; Expires=".spec_bytes(), moment_text(a.expires, now as int)),
            text_attribute("; Max-Age=".spec_bytes(), span_text(a.max_age, now as int)),
            flag_attribute("; Secure".spec_bytes(), a.secure),
            flag_attribute("; HttpOnly".spec_bytes(), a.http_only),
            text_attribute("; SameSite=".spec_bytes(), same_site_text(a.same_site)),
        );
    }
}

/// Appends the line that sets a cookie.
fn put_cookie_line(buf: &mut BytesMut, name: &String, cookie: &Cookie, now: u64)
    requires
        optional_attributes(cookie.options) matches Some(a) ==> a.in_range(now as int),
    ensures
        octets_mut(*final(buf)) == octets_mut(*old(buf)) + cookie_line(
            named((*name, *cookie)),
            now as int,
        ),
{
    let ghost start = octets_mut(*buf);
    let ghost attributes = attributes_text(optional_attributes(cookie.options), now as int);
    bytes_mut_extend(buf, "Set-Cookie: ".as_bytes());
    bytes_mut_extend(buf, name.as_str().as_bytes());
    bytes_mut_extend(buf, "=".as_bytes());
    bytes_mut_extend(buf, cookie.value.as_str().as_bytes());
    let ghost head = octets_mut(*buf);
    if let Some(options) = &cookie.options {
        put_attributes(buf, options, now);
    }
    assert(octets_mut(*buf) =~= head + attributes);
    bytes_mut_extend(buf, "\r\n".as_bytes());
    proof {
        lemma_seven(
            start,
            "Set-Cookie: ".spec_bytes(),
            encode_utf8(name@),
            "=".spec_bytes(),
            encode_utf8(cookie.value@),
            attributes,
            "\r\n".spec_bytes(),
            Seq::empty(),
        );
    }
}

// ── Laws ───────────────────────────────────────────────────────────────────

/// Where `i` is the least index at which the name stands, it is `cookie_index`.
proof fn lemma_cookie_index_is(cookies: Seq<NamedCookie>, name: Seq<u8>, i: int)
    requires
        0 <= i <= cookies.len(),
        i < cookies.len() ==> cookies[i].name == name,
        forall|j: int| 0 <= j < i ==> (#[trigger] cookies[j]).name != name,
    ensures
        cookie_index(cookies, name) == i,
{
    lemma_cookie_index(cookies, name);
}

/// A cookie that has been set has the value that was given; every other cookie
/// has the value that it had.
pub proof fn law_set_cookie(cookies: Seq<NamedCookie>, cookie: NamedCookie, other: Seq<u8>)
    ensures
        cookie_value(put_cookie(cookies, cookie), cookie.name) == Some(cookie.value),
        other != cookie.name ==> cookie_value(put_cookie(cookies, cookie), other) == cookie_value(
            cookies,
            other,
        ),
{
    let put = put_cookie(cookies, cookie);
    let i = cookie_index(cookies, cookie.name);
    let k = cookie_index(cookies, other);
    lemma_cookie_index(cookies, cookie.name);
    lemma_cookie_index(cookies, other);
    assert forall|j: int| 0 <= j < i implies (#[trigger] put[j]).name != cookie.name by {
        assert(put[j] == cookies[j]);
    }
    lemma_cookie_index_is(put, cookie.name, i);
    if other != cookie.name {
        assert forall|j: int| 0 <= j < k implies (#[trigger] put[j]).name != other by {
            if j != i {
                assert(put[j] == cookies[j]);
            }
        }
        if k < cookies.len() {
            assert(put[k] == cookies[k]);
            lemma_cookie_index_is(put, other, k);
        } else {
            lemma_cookie_index_is(put, other, put.len() as int);
        }
    }
}

/// A cookie that has been taken out is gone; every other cookie has the value
/// that it had.
pub proof fn law_dropped_cookie(cookies: Seq<NamedCookie>, name: Seq<u8>, other: Seq<u8>)
    requires
        names_distinct(cookies),
    ensures
        cookie_value(drop_cookie(cookies, name), name) is None,
        other != name ==> cookie_value(drop_cookie(cookies, name), other) == cookie_value(
            cookies,
            other,
        ),
{
    let left = drop_cookie(cookies, name);
    let i = cookie_index(cookies, name);
    let k = cookie_index(cookies, other);
    lemma_cookie_index(cookies, name);
    lemma_cookie_index(cookies, other);
    if i < cookies.len() {
        assert forall|j: int| 0 <= j < left.len() implies (#[trigger] left[j]).name != name by {
            let from = if j < i {
                j
            } else {
                j + 1
            };
            assert(left[j] == cookies[from]);
            assert(cookies[from].name != cookies[i].name);
        }
        lemma_cookie_index_is(left, name, left.len() as int);
        if other != name {
            let at = if k > i {
                k - 1
            } else {
                k
            };
            assert forall|j: int| 0 <= j < at implies (#[trigger] left[j]).name != other by {
                if j < i {
                    assert(left[j] == cookies[j]);
                } else {
                    assert(left[j] == cookies[j + 1]);
                }
            }
            if k < cookies.len() {
                assert(left[at] == cookies[k]);
            }
            lemma_cookie_index_is(left, other, at);
        }
    }
}

/// A cookie that stays the same in a `Cookie` header: the name is not empty and
/// has no equals sign, neither has a semicolon, and neither has blanks around it.
pub open spec fn clean_cookie(c: NamedCookie) -> bool {
    &&& c.name.len() > 0
    &&& valid_utf8(c.name)
    &&& valid_utf8(c.value)
    &&& forall|i: int| 0 <= i < c.name.len() ==> #[trigger] c.name[i] != 59 && c.name[i] != 61
    &&& forall|i: int| 0 <= i < c.value.len() ==> #[trigger] c.value[i] != 59
    &&& trimmed(c.name, false) == c.name
    &&& trimmed(c.value, false) == c.value
    &&& c.attributes is None
}

/// The `Cookie` header for cookies from the one at `i` on: a name, an equals sign
/// and a value each, with a semicolon and a blank between each two.
pub open spec fn cookie_header(cookies: Seq<NamedCookie>, i: int) -> Seq<u8>
    decreases cookies.len() - i,
{
    if i < 0 || i >= cookies.len() {
        Seq::empty()
    } else if i == cookies.len() - 1 {
        cookies[i].name + seq![61u8] + cookies[i].value
    } else {
        cookies[i].name + seq![61u8] + cookies[i].value + seq![59u8, 32u8] + cookie_header(
            cookies,
            i + 1,
        )
    }
}

proof fn lemma_trim_lengths(s: Seq<u8>)
    ensures
        trim_start(s).len() <= s.len(),
        trim_end(s, false).len() <= s.len(),
    decreases s.len(),
{
    if s.len() > 0 {
        lemma_trim_lengths(s.skip(1));
        lemma_trim_lengths(s.drop_last());
    }
}

/// What is kept by trimming neither starts nor ends with a blank.
proof fn lemma_trimmed_ends(s: Seq<u8>)
    requires
        trimmed(s, false) == s,
    ensures
        s.len() > 0 ==> !blank(s[0]) && !blank(s.last()),
{
    lemma_trim_lengths(trim_start(s));
    lemma_trim_lengths(s);
    if s.len() > 0 {
        if blank(s[0]) {
            lemma_trim_lengths(s.skip(1));
        } else if blank(s.last()) {
            lemma_trim_lengths(s.drop_last());
        }
    }
}

/// The part of a header that holds a clean cookie, with or without a blank in
/// front.
proof fn lemma_pair_read(c: NamedCookie, front: Seq<u8>)
    requires
        clean_cookie(c),
        front == Seq::<u8>::empty() || front == seq![32u8],
    ensures
        pair_in(front + (c.name + seq![61u8] + c.value)) == Some((c.name, c.value)),
{
    let pair = c.name + seq![61u8] + c.value;
    let part = front + pair;
    lemma_trimmed_ends(c.name);
    lemma_trimmed_ends(c.value);
    assert(pair[0] == c.name[0]);
    if c.value.len() > 0 {
        assert(pair.last() == c.value.last());
    } else {
        assert(pair.last() == 61);
    }
    assert(trim_start(pair) == pair);
    assert(trim_end(pair, false) == pair);
    if front.len() > 0 {
        assert(part.skip(1) =~= pair);
        assert(trim_start(part) == trim_start(pair));
    } else {
        assert(part =~= pair);
    }
    let eq = c.name.len() as int;
    assert forall|j: int| 0 <= j < eq implies pair[j] != 61 by {
        assert(pair[j] == c.name[j]);
    }
    lemma_position_is(pair, 61, eq);
    assert(pair.take(eq) =~= c.name);
    assert(pair.skip(eq + 1) =~= c.value);
}

proof fn lemma_parts_read(cookies: Seq<NamedCookie>, i: int, front: Seq<u8>)
    requires
        0 <= i < cookies.len(),
        names_distinct(cookies),
        forall|k: int| 0 <= k < cookies.len() ==> clean_cookie(#[trigger] cookies[k]),
        front == Seq::<u8>::empty() || front == seq![32u8],
    ensures
        cookies_of_parts(cookies.take(i), front + cookie_header(cookies, i)) == cookies,
    decreases cookies.len() - i,
{
    let c = cookies[i];
    assert(clean_cookie(c));
    let known = cookies.take(i);
    let pair = c.name + seq![61u8] + c.value;
    let part = front + pair;
    let s = front + cookie_header(cookies, i);
    let end = part.len() as int;
    assert forall|j: int| 0 <= j < end implies part[j] != 59 by {
        let k = j - front.len();
        if 0 <= k < c.name.len() {
            assert(part[j] == c.name[k]);
        } else if k > c.name.len() {
            assert(part[j] == c.value[k - c.name.len() - 1]);
        }
    }
    assert forall|j: int| 0 <= j < known.len() implies (#[trigger] known[j]).name != c.name by {
        assert(known[j] == cookies[j]);
    }
    lemma_cookie_index_is(known, c.name, i);
    let added = NamedCookie { name: c.name, value: c.value, attributes: None };
    assert(added == c);
    assert(put_cookie(known, added) =~= cookies.take(i + 1));
    lemma_pair_read(c, front);
    if i == cookies.len() - 1 {
        assert(s =~= part);
        lemma_position_is(s, 59, end);
        assert(s.take(end) =~= part);
        assert(rest_after(s, end) =~= Seq::<u8>::empty());
        assert(cookies_of_parts(cookies.take(i + 1), Seq::empty()) == cookies.take(i + 1));
        assert(cookies.take(i + 1) =~= cookies);
    } else {
        let rest = cookie_header(cookies, i + 1);
        assert(s =~= part + seq![59u8] + (seq![32u8] + rest));
        assert forall|j: int| 0 <= j < end implies s[j] != 59 by {
            assert(s[j] == part[j]);
        }
        lemma_position_is(s, 59, end);
        assert(s.take(end) =~= part);
        assert(rest_after(s, end) =~= seq![32u8] + rest);
        lemma_parts_read(cookies, i + 1, seq![32u8]);
    }
}

/// Clean cookies that a client sends back are read as they were.
pub proof fn law_cookies_read_back(cookies: Seq<NamedCookie>)
    requires
        names_distinct(cookies),
        forall|k: int| 0 <= k < cookies.len() ==> clean_cookie(#[trigger] cookies[k]),
    ensures
        parse_cookies(cookie_header(cookies, 0)) == cookies,
{
    if cookies.len() == 0 {
        assert(cookies =~= Seq::empty());
    } else {
        lemma_parts_read(cookies, 0, Seq::empty());
        assert(cookies.take(0) =~= Seq::empty());
        assert(Seq::<u8>::empty() + cookie_header(cookies, 0) =~= cookie_header(cookies, 0));
    }
}

/// The value under a name is that of the first cookie with that name, and there is
/// none where no cookie has it.
pub proof fn law_cookie_value(cookies: Seq<NamedCookie>, name: Seq<u8>, i: int)
    ensures
        0 <= i < cookies.len() && cookies[i].name == name && (forall|j: int|
            0 <= j < i ==> (#[trigger] cookies[j]).name != name) ==> cookie_value(cookies, name)
            == Some(cookies[i].value),
        (forall|j: int| 0 <= j < cookies.len() ==> (#[trigger] cookies[j]).name != name)
            ==> cookie_value(cookies, name) is None,
{
    lemma_cookie_index(cookies, name);
}

/// A cookie with a new name goes to the end; one with a name that is there takes
/// the place of the cookie that had it, attributes and all. A cookie that is taken
/// out leaves the others in order.
pub proof fn law_cookie_places(cookies: Seq<NamedCookie>, cookie: NamedCookie, i: int)
    ensures
        (forall|j: int| 0 <= j < cookies.len() ==> (#[trigger] cookies[j]).name != cookie.name)
            ==> put_cookie(cookies, cookie) == cookies.push(cookie) && drop_cookie(
            cookies,
            cookie.name,
        ) == cookies,
        0 <= i < cookies.len() && cookies[i].name == cookie.name && (forall|j: int|
            0 <= j < i ==> (#[trigger] cookies[j]).name != cookie.name) ==> put_cookie(
            cookies,
            cookie,
        ) == cookies.take(i) + seq![cookie] + cookies.skip(i + 1) && drop_cookie(
            cookies,
            cookie.name,
        ) == cookies.take(i) + cookies.skip(i + 1),
{
    lemma_cookie_index(cookies, cookie.name);
    if 0 <= i < cookies.len() && cookies[i].name == cookie.name && (forall|j: int|
        0 <= j < i ==> (#[trigger] cookies[j]).name != cookie.name) {
        assert(cookie_index(cookies, cookie.name) == i);
        assert(put_cookie(cookies, cookie) =~= cookies.take(i) + seq![cookie] + cookies.skip(
            i + 1,
        ));
        assert(drop_cookie(cookies, cookie.name) =~= cookies.take(i) + cookies.skip(i + 1));
    }
}

/// A minute has 60 seconds, an hour 60 minutes, a day 24 hours, a month 30 days and
/// a year 365. A span ends that many seconds after the moment that it is seen from;
/// a moment stays the same, and until it comes there are as many seconds left as
/// lie between.
pub proof fn law_spans(n: u64, now: int)
    ensures
        ({
            let second = CookieExpiration::Seconds(n);
            let minute = CookieExpiration::Minutes(n);
            let hour = CookieExpiration::Hours(n);
            let day = CookieExpiration::Days(n);
            let month = CookieExpiration::Months(n);
            let year = CookieExpiration::Years(n);
            let at = CookieExpiration::At(n);
            &&& second.secs_left(now) == n
            &&& minute.secs_left(now) == 60 * second.secs_left(now)
            &&& hour.secs_left(now) == 60 * minute.secs_left(now)
            &&& day.secs_left(now) == 24 * hour.secs_left(now)
            &&& month.secs_left(now) == 30 * day.secs_left(now)
            &&& year.secs_left(now) == 365 * day.secs_left(now)
            &&& second.moment(now) - now == second.secs_left(now)
            &&& minute.moment(now) - now == minute.secs_left(now)
            &&& hour.moment(now) - now == hour.secs_left(now)
            &&& day.moment(now) - now == day.secs_left(now)
            &&& month.moment(now) - now == month.secs_left(now)
            &&& year.moment(now) - now == year.secs_left(now)
            &&& at.moment(now) == n
            &&& now <= n ==> now + at.secs_left(now) == n
            &&& now > n ==> at.secs_left(now) == 0
        }),
{
}

/// A text where `on` holds, and nothing otherwise.
pub open spec fn text_if(on: bool, s: Seq<u8>) -> Seq<u8> {
    if on {
        s
    } else {
        Seq::empty()
    }
}

/// The line that sets a cookie: its name and its value, then the attributes that it
/// has, each behind a semicolon, in this order: the domain, the path, the moment
/// and the span until it expires, whether it goes only over secure connections,
/// whether scripts cannot read it, and whether it goes along from other sites.
pub proof fn law_cookie_line(name: Seq<u8>, value: Seq<u8>, a: Attributes, now: int)
    ensures
        ({
            let start = "Set-Cookie: ".spec_bytes() + name + "=".spec_bytes() + value;
            let site = match a.same_site {
                Some(SameSite::Strict) => "Strict".spec_bytes(),
                Some(SameSite::Lax) => "Lax".spec_bytes(),
                _ => "None".spec_bytes(),
            };
            &&& cookie_line(NamedCookie { name, value, attributes: None }, now) == start
                + "\r\n".spec_bytes()
            &&& cookie_line(NamedCookie { name, value, attributes: Some(a) }, now) == start + (
            text_if(a.domain is Some, "; Domain=".spec_bytes() + a.domain->Some_0) + text_if(
                a.path is Some,
                "; Path=".spec_bytes() + a.path->Some_0,
            ) + text_if(
                a.expires is Some,
                "; Expires=".spec_bytes() + http_date(a.expires->Some_0.moment(now)),
            ) + text_if(
                a.max_age is Some,
                "; Max-Age=".spec_bytes() + decimal(a.max_age->Some_0.secs_left(now) as nat),
            ) + text_if(a.secure, "; Secure".spec_bytes()) + text_if(
                a.http_only,
                "; HttpOnly".spec_bytes(),
            ) + text_if(a.same_site is Some, "; SameSite=".spec_bytes() + site))
                + "\r\n".spec_bytes()
        }),
{
    let bare = NamedCookie { name, value, attributes: None };
    assert(cookie_line(bare, now) =~= "Set-Cookie: ".spec_bytes() + name + "=".spec_bytes() + value
        + "\r\n".spec_bytes());
}

/// The cookies are set in order, one line each.
pub proof fn law_cookie_block(a: Seq<NamedCookie>, b: Seq<NamedCookie>, one: NamedCookie, now: int)
    ensures
        cookie_block(a + b, now) == cookie_block(a, now) + cookie_block(b, now),
        cookie_block(seq![one], now) == cookie_line(one, now),
        cookie_block(Seq::empty(), now) == Seq::<u8>::empty(),
    decreases b.len(),
{
    let single = seq![one];
    assert(single.drop_last() =~= Seq::<NamedCookie>::empty());
    assert(cookie_block(Seq::<NamedCookie>::empty(), now) =~= Seq::<u8>::empty());
    assert(cookie_block(single, now) =~= cookie_line(one, now));
    if b.len() == 0 {
        assert(a + b =~= a);
        assert(cookie_block(a, now) + cookie_block(b, now) =~= cookie_block(a, now));
    } else {
        law_cookie_block(a, b.drop_last(), one, now);
        assert((a + b).drop_last() =~= a + b.drop_last());
        assert((a + b).last() == b.last());
        assert(cookie_block(a + b, now) =~= cookie_block(a, now) + cookie_block(b, now));
    }
}

proof fn lemma_trim_start_is(s: Seq<u8>, i: int)
    requires
        0 <= i <= s.len(),
        forall|k: int| 0 <= k < i ==> #[trigger] s[k] == 32 || s[k] == 9,
        i < s.len() ==> s[i] != 32 && s[i] != 9,
    ensures
        trim_start(s) == s.skip(i),
{
    let j = lemma_trim_start(s);
    if j < i {
        assert(s[j] == 32 || s[j] == 9);
    } else if i < j {
        assert(s[i] == 32 || s[i] == 9);
    }
}

proof fn lemma_trim_end_is(s: Seq<u8>, j: int)
    requires
        0 <= j <= s.len(),
        forall|k: int| j <= k < s.len() ==> #[trigger] s[k] == 32 || s[k] == 9,
        j > 0 ==> s[j - 1] != 32 && s[j - 1] != 9,
    ensures
        trim_end(s, false) == s.take(j),
{
    let i = lemma_trim_end(s, false);
    if i < j {
        assert(s[j - 1] == 32 || s[j - 1] == 9);
    } else if j < i {
        assert(s[i - 1] == 32 || s[i - 1] == 9);
    }
}

/// Text without blanks at its end, or without those at its start, is trimmed to
/// the same.
proof fn lemma_trimmed_again(s: Seq<u8>)
    ensures
        trimmed(trim_start(s), false) == trimmed(s, false),
        trimmed(trim_end(s, false), false) == trimmed(s, false),
{
    let i = lemma_trim_start(s);
    let t = s.skip(i);
    assert(i < s.len() ==> t[0] == s[i]);
    lemma_trim_start_is(t, 0);
    assert(t.skip(0) =~= t);
    let j = lemma_trim_end(s, false);
    let w = s.take(j);
    if j <= i {
        if j > 0 {
            assert(s[j - 1] == 32 || s[j - 1] == 9);
        }
        assert(j == 0);
        assert(i == s.len()) by {
            if i < s.len() {
                assert(s[i] == 32 || s[i] == 9);
            }
        }
        assert(w =~= Seq::<u8>::empty());
        assert(t =~= Seq::<u8>::empty());
    } else {
        assert forall|k: int| 0 <= k < i implies #[trigger] w[k] == 32 || w[k] == 9 by {
            assert(w[k] == s[k]);
        }
        assert(w[i] == s[i]);
        lemma_trim_start_is(w, i);
        let core = w.skip(i);
        assert(core.len() == j - i);
        assert(core[core.len() - 1] == s[j - 1]);
        lemma_trim_end_is(core, core.len() as int);
        assert(core.take(core.len() as int) =~= core);
        assert forall|k: int| j - i <= k < t.len() implies #[trigger] t[k] == 32 || t[k] == 9 by {
            assert(t[k] == s[k + i]);
        }
        assert(t[j - i - 1] == s[j - 1]);
        lemma_trim_end_is(t, j - i);
        assert(t.take(j - i) =~= core);
    }
}

/// What one part of a `Cookie` header says: a name in front of its first equals
/// sign and a value behind it, both without the blanks around them, and without an
/// equals sign a name with an empty value. It says nothing where the name is empty
/// or one of them is not UTF-8.
pub proof fn law_cookie_part(name: Seq<u8>, value: Seq<u8>)
    requires
        forall|i: int| 0 <= i < name.len() ==> #[trigger] name[i] != 61,
    ensures
        ({
            let key = trimmed(name, false);
            let text = trimmed(value, false);
            &&& pair_in(name + seq![61u8] + value) == (if key.len() > 0 && valid_utf8(key)
                && valid_utf8(text) {
                Some((key, text))
            } else {
                None
            })
            &&& pair_in(name) == (if key.len() > 0 && valid_utf8(key) {
                Some((key, Seq::<u8>::empty()))
            } else {
                None
            })
        }),
{
    let s = name + seq![61u8] + value;
    let i = lemma_trim_start(name);
    let j = lemma_trim_end(value, false);
    let front = name.skip(i);
    let back = value.take(j);
    assert forall|k: int| 0 <= k < i implies #[trigger] s[k] == 32 || s[k] == 9 by {
        assert(s[k] == name[k]);
    }
    assert(s[i] == if i < name.len() {
        name[i]
    } else {
        61u8
    });
    lemma_trim_start_is(s, i);
    let t = s.skip(i);
    let n = front.len() as int;
    assert(t =~= front + seq![61u8] + value);
    assert forall|k: int| n + 1 + j <= k < t.len() implies #[trigger] t[k] == 32 || t[k] == 9 by {
        assert(t[k] == value[k - n - 1]);
    }
    assert(t[n + j] == if j > 0 {
        value[j - 1]
    } else {
        61u8
    });
    lemma_trim_end_is(t, n + 1 + j);
    let pair = trimmed(s, false);
    assert(pair =~= front + seq![61u8] + back);
    assert forall|k: int| 0 <= k < n implies #[trigger] pair[k] != 61 by {
        assert(pair[k] == name[k + i]);
    }
    lemma_position_is(pair, 61, n);
    assert(pair.take(n) =~= front);
    assert(pair.skip(n + 1) =~= back);
    lemma_trimmed_again(name);
    lemma_trimmed_again(value);
    let bare = trimmed(name, false);
    let e = lemma_trim_end(front, false);
    assert(bare == front.take(e));
    assert forall|k: int| 0 <= k < bare.len() implies #[trigger] bare[k] != 61 by {
        assert(bare[k] == name[k + i]);
    }
    lemma_position_is(bare, 61, bare.len() as int);
    assert(valid_utf8(Seq::<u8>::empty()));
}

/// A `Cookie` header is read part by part: what the last part says is put to the
/// cookies before it.
pub proof fn law_cookie_header(front: Seq<u8>, part: Seq<u8>)
    requires
        forall|i: int| 0 <= i < part.len() ==> #[trigger] part[i] != 59,
    ensures
        parse_cookies(front + seq![59u8] + part) == (match pair_in(part) {
            Some(p) => put_cookie(
                parse_cookies(front),
                NamedCookie { name: p.0, value: p.1, attributes: None },
            ),
            None => parse_cookies(front),
        }),
        parse_cookies(part) == (match pair_in(part) {
            Some(p) => seq![NamedCookie { name: p.0, value: p.1, attributes: None }],
            None => Seq::empty(),
        }),
{
    lemma_last_part(Seq::empty(), front, part);
    lemma_only_part(Seq::empty(), part);
    if let Some(p) = pair_in(part) {
        let one = NamedCookie { name: p.0, value: p.1, attributes: None };
        law_cookie_places(Seq::empty(), one, 0);
        assert(Seq::<NamedCookie>::empty().push(one) =~= seq![one]);
    }
}

proof fn lemma_only_part(cookies: Seq<NamedCookie>, part: Seq<u8>)
    requires
        forall|i: int| 0 <= i < part.len() ==> #[trigger] part[i] != 59,
    ensures
        cookies_of_parts(cookies, part) == (match pair_in(part) {
            Some(p) => put_cookie(
                cookies,
                NamedCookie { name: p.0, value: p.1, attributes: None },
            ),
            None => cookies,
        }),
{
    if part.len() > 0 {
        lemma_position_is(part, 59, part.len() as int);
        assert(part.take(part.len() as int) =~= part);
        let next = match pair_in(part) {
            Some(p) => put_cookie(
                cookies,
                NamedCookie { name: p.0, value: p.1, attributes: None },
            ),
            None => cookies,
        };
        assert(rest_after(part, part.len() as int) =~= Seq::<u8>::empty());
        assert(cookies_of_parts(next, Seq::<u8>::empty()) == next);
    } else {
        assert(trimmed(part, false).len() == 0);
        assert(pair_in(part) is None);
    }
}

proof fn lemma_last_part(cookies: Seq<NamedCookie>, front: Seq<u8>, part: Seq<u8>)
    requires
        forall|i: int| 0 <= i < part.len() ==> #[trigger] part[i] != 59,
    ensures
        cookies_of_parts(cookies, front + seq![59u8] + part) == (match pair_in(part) {
            Some(p) => put_cookie(
                cookies_of_parts(cookies, front),
                NamedCookie { name: p.0, value: p.1, attributes: None },
            ),
            None => cookies_of_parts(cookies, front),
        }),
    decreases front.len(),
{
    let s = front + seq![59u8] + part;
    lemma_position(front, 59);
    let end = position(front, 59);
    assert forall|k: int| 0 <= k < end implies s[k] != 59 by {
        assert(s[k] == front[k]);
    }
    assert(s[end] == 59) by {
        if end < front.len() {
            assert(s[end] == front[end]);
        }
    }
    lemma_position_is(s, 59, end);
    assert(s.take(end) =~= front.take(end));
    let next = match pair_in(front.take(end)) {
        Some(p) => put_cookie(cookies, NamedCookie { name: p.0, value: p.1, attributes: None }),
        None => cookies,
    };
    if end < front.len() {
        let behind = front.skip(end + 1);
        assert(s.skip(end + 1) =~= behind + seq![59u8] + part);
        lemma_last_part(next, behind, part);
    } else {
        assert(s.skip(end + 1) =~= part);
        assert(front.take(end) =~= front);
        lemma_only_part(cookies, front);
        lemma_only_part(next, part);
    }
}

/// A cookie can be written where the moment of its expiry and the span until it are
/// numbers of 64 bits, and cookies where each of them can.
pub proof fn law_in_range(cookies: Seq<NamedCookie>, a: Attributes, now: int)
    ensures
        a.in_range(now) <==> !(a.expires matches Some(e) && e.moment(now) > u64::MAX) && !(
        a.max_age matches Some(e) && e.secs_left(now) > u64::MAX),
        cookies_in_range(cookies, now) <==> forall|i: int|
            0 <= i < cookies.len() ==> ((#[trigger] cookies[i]).attributes matches Some(b)
                ==> b.in_range(now)),
{
}

/// The attributes of a cookie are what its options say, each in its own place, and
/// none where nothing is said.
pub proof fn law_attributes(o: CookieOptions, entry: (String, Cookie))
    ensures
        o.domain matches Some(s) ==> o@.domain == Some(encode_utf8(s@)),
        o.domain is None ==> o@.domain is None,
        o.path matches Some(s) ==> o@.path == Some(encode_utf8(s@)),
        o.path is None ==> o@.path is None,
        o@.expires == o.expires,
        o@.max_age == o.max_age,
        o@.secure == o.secure,
        o@.http_only == o.http_only,
        o@.same_site == o.same_site,
        ({
            let none = no_attributes();
            none.domain is None && none.path is None && none.expires is None && none.max_age is None
                && !none.secure && !none.http_only && none.same_site is None
        }),
        named(entry).name == encode_utf8(entry.0@),
        named(entry).value == encode_utf8(entry.1.value@),
        entry.1.options matches Some(p) ==> named(entry).attributes == Some(p@),
        entry.1.options is None ==> named(entry).attributes is None,
{
}

} // verus!

//! Requests.

use crate::body::{Body, Content};
use crate::cookie_store::{cookie_value, optional_text, parse_cookies, CookieStore, NamedCookie};
use crate::field_lines::{
    clean, field_block, field_value, law_fields_read_back, parse_fields, well_kept, Field,
    FieldLines,
};
use crate::numbers::{decimal, law_decimal_reads_back, number_in, parse_number};
use crate::outside::{
    bytes_as_slice, bytes_slice, form_pairs, io_error_text, octets, parse_form,
    str_from_utf8, utf8_pairs,
};
use crate::text::{
    contains, contains_bytes, equal_ignoring_case, law_rest_after, law_same_ignoring_case,
    lemma_ascii_valid, lemma_position_is, lower_all, position, position_of,
    rest_after, same_ignoring_case, str_equal, strip, strip_text,
};
use bytes::Bytes;
use vstd::prelude::*;
use vstd::slice::slice_subrange;
use vstd::string::{is_ascii, StringSliceAdditionalSpecFns};
use vstd::utf8::*;

verus! {

// ── Errors ─────────────────────────────────────────────────────────────────

/// Why no request could be read.
#[derive(Debug)]
pub enum HttpRequestError {
    RequestLineParsingFailed(String),
    HeaderParsingFailed(String),
    BodyParsingFailed(String),
    RequestParsingFailed(String),
    InvalidHttpMethod(),
    PayloadTooLarge,
    RequestLineTooLong,
    HeadersTooLarge,
    Io(std::io::Error),
    Timeout,
}

/// Why no request could be read, texts in UTF-8.
pub enum RequestFailure {
    RequestLine(Seq<u8>),
    Header(Seq<u8>),
    Body(Seq<u8>),
    Request(Seq<u8>),
    InvalidMethod,
    PayloadTooLarge,
    RequestLineTooLong,
    HeadersTooLarge,
    Io(std::io::Error),
    Timeout,
}

impl View for HttpRequestError {
    type V = RequestFailure;

    open spec fn view(&self) -> RequestFailure {
        match self {
            HttpRequestError::RequestLineParsingFailed(s) => RequestFailure::RequestLine(
                encode_utf8(s@),
            ),
            HttpRequestError::HeaderParsingFailed(s) => RequestFailure::Header(encode_utf8(s@)),
            HttpRequestError::BodyParsingFailed(s) => RequestFailure::Body(encode_utf8(s@)),
            HttpRequestError::RequestParsingFailed(s) => RequestFailure::Request(encode_utf8(s@)),
            HttpRequestError::InvalidHttpMethod() => RequestFailure::InvalidMethod,
            HttpRequestError::PayloadTooLarge => RequestFailure::PayloadTooLarge,
            HttpRequestError::RequestLineTooLong => RequestFailure::RequestLineTooLong,
            HttpRequestError::HeadersTooLarge => RequestFailure::HeadersTooLarge,
            HttpRequestError::Io(e) => RequestFailure::Io(*e),
            HttpRequestError::Timeout => RequestFailure::Timeout,
        }
    }
}

/// What `HttpRequestError::message` says of a failure, but for one of the
/// operating system, whose text it passes on.
pub open spec fn failure_text(f: RequestFailure) -> Option<Seq<u8>> {
    match f {
        RequestFailure::RequestLine(s) => Some(s),
        RequestFailure::Header(s) => Some(s),
        RequestFailure::Body(s) => Some(s),
        RequestFailure::Request(s) => Some(s),
        RequestFailure::InvalidMethod => Some("invalid http method".spec_bytes()),
        RequestFailure::PayloadTooLarge => Some("payload too large".spec_bytes()),
        RequestFailure::RequestLineTooLong => Some("request line too long".spec_bytes()),
        RequestFailure::HeadersTooLarge => Some("headers too large".spec_bytes()),
        RequestFailure::Io(_) => None,
        RequestFailure::Timeout => Some("request time out".spec_bytes()),
    }
}

impl HttpRequestError {
    /// The error in words.
    pub fn message(&self) -> (r: String)
        ensures
            failure_text(self@) matches Some(t) ==> encode_utf8(r@) == t,
            failure_text(self@) is None ==> "io error: "@.is_prefix_of(r@),
    {
        match self {
            HttpRequestError::RequestLineParsingFailed(s) => s.clone(),
            HttpRequestError::HeaderParsingFailed(s) => s.clone(),
            HttpRequestError::BodyParsingFailed(s) => s.clone(),
            HttpRequestError::RequestParsingFailed(s) => s.clone(),
            HttpRequestError::InvalidHttpMethod() => "invalid http method".to_owned(),
            HttpRequestError::PayloadTooLarge => "payload too large".to_owned(),
            HttpRequestError::RequestLineTooLong => "request line too long".to_owned(),
            HttpRequestError::HeadersTooLarge => "headers too large".to_owned(),
            HttpRequestError::Io(e) => {
                let mut r = "io error: ".to_owned();
                r.append(io_error_text(e).as_str());
                r
            },
            HttpRequestError::Timeout => "request time out".to_owned(),
        }
    }
}

// ── Methods ────────────────────────────────────────────────────────────────

#[derive(Debug, PartialEq, Eq, Clone, Copy, Structural)]
pub enum HttpMethod {
    GET,
    POST,
    PATCH,
    PUT,
    DELETE,
    OPTIONS,
    HEAD,
    CONNECT,
    TRACE,
}

/// The method whose name is `name` in any case.
pub open spec fn method_of(name: Seq<u8>) -> Option<HttpMethod> {
    if same_ignoring_case(name, HttpMethod::GET.name()) {
        Some(HttpMethod::GET)
    } else if same_ignoring_case(name, HttpMethod::POST.name()) {
        Some(HttpMethod::POST)
    } else if same_ignoring_case(name, HttpMethod::PATCH.name()) {
        Some(HttpMethod::PATCH)
    } else if same_ignoring_case(name, HttpMethod::PUT.name()) {
        Some(HttpMethod::PUT)
    } else if same_ignoring_case(name, HttpMethod::DELETE.name()) {
        Some(HttpMethod::DELETE)
    } else if same_ignoring_case(name, HttpMethod::OPTIONS.name()) {
        Some(HttpMethod::OPTIONS)
    } else if same_ignoring_case(name, HttpMethod::HEAD.name()) {
        Some(HttpMethod::HEAD)
    } else if same_ignoring_case(name, HttpMethod::CONNECT.name()) {
        Some(HttpMethod::CONNECT)
    } else if same_ignoring_case(name, HttpMethod::TRACE.name()) {
        Some(HttpMethod::TRACE)
    } else {
        None
    }
}

impl HttpMethod {
    /// The method's name.
    pub open spec fn name(self) -> Seq<u8> {
        match self {
            HttpMethod::GET => "GET".spec_bytes(),
            HttpMethod::POST => "POST".spec_bytes(),
            HttpMethod::PATCH => "PATCH".spec_bytes(),
            HttpMethod::PUT => "PUT".spec_bytes(),
            HttpMethod::DELETE => "DELETE".spec_bytes(),
            HttpMethod::OPTIONS => "OPTIONS".spec_bytes(),
            HttpMethod::HEAD => "HEAD".spec_bytes(),
            HttpMethod::CONNECT => "CONNECT".spec_bytes(),
            HttpMethod::TRACE => "TRACE".spec_bytes(),
        }
    }

    /// The method whose name is `s` in any case. Letters outside of ASCII have no
    /// lower-case form that a method's name holds.
    pub fn from_str(s: &str) -> (r: Result<HttpMethod, HttpRequestError>)
        ensures
            match r {
                Ok(m) => same_ignoring_case(s.spec_bytes(), m.name()) && method_of(s.spec_bytes())
                    == Some(m),
                Err(e) => e@ == RequestFailure::InvalidMethod && method_of(s.spec_bytes()) is None
                    && forall|m: HttpMethod|
                    !same_ignoring_case(s.spec_bytes(), #[trigger] m.name()),
            },
    {
        let b = s.as_bytes();
        if equal_ignoring_case(b, "GET".as_bytes()) {
            Ok(HttpMethod::GET)
        } else if equal_ignoring_case(b, "POST".as_bytes()) {
            Ok(HttpMethod::POST)
        } else if equal_ignoring_case(b, "PATCH".as_bytes()) {
            Ok(HttpMethod::PATCH)
        } else if equal_ignoring_case(b, "PUT".as_bytes()) {
            Ok(HttpMethod::PUT)
        } else if equal_ignoring_case(b, "DELETE".as_bytes()) {
            Ok(HttpMethod::DELETE)
        } else if equal_ignoring_case(b, "OPTIONS".as_bytes()) {
            Ok(HttpMethod::OPTIONS)
        } else if equal_ignoring_case(b, "HEAD".as_bytes()) {
            Ok(HttpMethod::HEAD)
        } else if equal_ignoring_case(b, "CONNECT".as_bytes()) {
            Ok(HttpMethod::CONNECT)
        } else if equal_ignoring_case(b, "TRACE".as_bytes()) {
            Ok(HttpMethod::TRACE)
        } else {
            Err(HttpRequestError::InvalidHttpMethod())
        }
    }

    /// The method's name.
    pub fn as_str(&self) -> (r: &'static str)
        ensures
            r.spec_bytes() == self.name(),
    {
        match self {
            HttpMethod::GET => "GET",
            HttpMethod::POST => "POST",
            HttpMethod::PATCH => "PATCH",
            HttpMethod::PUT => "PUT",
            HttpMethod::DELETE => "DELETE",
            HttpMethod::OPTIONS => "OPTIONS",
            HttpMethod::HEAD => "HEAD",
            HttpMethod::CONNECT => "CONNECT",
            HttpMethod::TRACE => "TRACE",
        }
    }
}

// ── Parameters ─────────────────────────────────────────────────────────────

/// A name and a value, in UTF-8.
pub type Pair = (Seq<u8>, Seq<u8>);

/// The value of the first pair called `name`.
pub open spec fn pair_value(pairs: Seq<Pair>, name: Seq<u8>) -> Option<Seq<u8>>
    decreases pairs.len(),
{
    if pairs.len() == 0 {
        None
    } else if pairs[0].0 == name {
        Some(pairs[0].1)
    } else {
        pair_value(pairs.skip(1), name)
    }
}

/// The index of the first pair called `name`, or the number of pairs where there
/// is none.
pub open spec fn pair_index(pairs: Seq<Pair>, name: Seq<u8>) -> int
    decreases pairs.len(),
{
    if pairs.len() == 0 {
        0
    } else if pairs[0].0 == name {
        0
    } else {
        1 + pair_index(pairs.skip(1), name)
    }
}

/// `pair_index` is the least index at which the name stands.
pub proof fn lemma_pair_index(pairs: Seq<Pair>, name: Seq<u8>)
    ensures
        0 <= pair_index(pairs, name) <= pairs.len(),
        pair_value(pairs, name) == (if pair_index(pairs, name) < pairs.len() {
            Some(pairs[pair_index(pairs, name)].1)
        } else {
            None
        }),
        pair_index(pairs, name) < pairs.len() ==> pairs[pair_index(pairs, name)].0 == name,
        forall|j: int| 0 <= j < pair_index(pairs, name) ==> (#[trigger] pairs[j]).0 != name,
    decreases pairs.len(),
{
    if pairs.len() > 0 && pairs[0].0 != name {
        lemma_pair_index(pairs.skip(1), name);
        assert forall|j: int| 0 <= j < pair_index(pairs, name) implies (#[trigger] pairs[j]).0
            != name by {
            if j > 0 {
                assert(pairs.skip(1)[j - 1] == pairs[j]);
            }
        }
    }
}

/// The index of the first pair called `name`, or the number of pairs where there
/// is none.
pub fn index_of_pair(pairs: &Vec<(String, String)>, name: &str) -> (r: usize)
    ensures
        r == pair_index(utf8_pairs(pairs@), name.spec_bytes()),
        r <= pairs@.len(),
{
    let ghost all = utf8_pairs(pairs@);
    let n: usize = pairs.len();
    let mut i: usize = 0;
    while i < n
        invariant
            n == pairs@.len(),
            i <= n,
            all == utf8_pairs(pairs@),
            forall|j: int| 0 <= j < i ==> (#[trigger] all[j]).0 != name.spec_bytes(),
        decreases n - i,
    {
        if str_equal(pairs[i].0.as_str(), name) {
            proof {
                assert(all[i as int].0 == name.spec_bytes());
                lemma_pair_index(all, name.spec_bytes());
            }
            return i;
        }
        i += 1;
    }
    proof {
        lemma_pair_index(all, name.spec_bytes());
    }
    n
}

/// The value of the first pair called `name`.
pub fn find_pair<'a>(pairs: &'a Vec<(String, String)>, name: &str) -> (r: Option<&'a str>)
    ensures
        match r {
            Some(v) => pair_value(utf8_pairs(pairs@), name.spec_bytes()) == Some(v.spec_bytes()),
            None => pair_value(utf8_pairs(pairs@), name.spec_bytes()) is None,
        },
{
    proof {
        lemma_pair_index(utf8_pairs(pairs@), name.spec_bytes());
    }
    let i: usize = index_of_pair(pairs, name);
    if i < pairs.len() {
        Some(pairs[i].1.as_str())
    } else {
        None
    }
}

/// The part of a route behind its first question mark.
pub open spec fn query_of(route: Seq<u8>) -> Seq<u8> {
    rest_after(route, position(route, 63))
}

/// The names and values in the query of a route.
pub fn parse_query_params(url: &str) -> (r: Vec<(String, String)>)
    ensures
        utf8_pairs(r@) == form_pairs(query_of(url.spec_bytes())),
{
    let b = url.as_bytes();
    let mark: usize = position_of(b, 63);
    let n: usize = b.len();
    let query: &[u8] = if mark < n {
        slice_subrange(b, mark + 1, n)
    } else {
        slice_subrange(b, n, n)
    };
    assert(query@ =~= query_of(b@));
    parse_form(query)
}

// ── Requests ───────────────────────────────────────────────────────────────

/// The address of the other end of a connection.
#[derive(Debug, PartialEq, Eq, Clone, Copy, Structural)]
pub enum PeerAddress {
    V4(u32),
    V6(u128),
}

/// What is known of a request's body.
pub enum BodyState {
    Unread { content_length: usize, is_chunked: bool },
    Reading,
    Read(Body),
}

/// What is known of a request's body.
pub enum BodyProgress {
    Unread { content_length: nat, chunked: bool },
    Reading,
    Read(Content),
}

impl View for BodyState {
    type V = BodyProgress;

    open spec fn view(&self) -> BodyProgress {
        match self {
            BodyState::Unread { content_length, is_chunked } => BodyProgress::Unread {
                content_length: *content_length as nat,
                chunked: *is_chunked,
            },
            BodyState::Reading => BodyProgress::Reading,
            BodyState::Read(b) => BodyProgress::Read(b@),
        }
    }
}

/// A request without its body.
pub struct HttpRequest {
    peer: PeerAddress,
    host: Option<String>,
    http_version: Bytes,
    method: HttpMethod,
    route: String,
    field_lines: FieldLines,
    cookies: CookieStore,
    max_body_size: usize,
    body_state: BodyState,
    path_params: Vec<(String, String)>,
    query_params: Vec<(String, String)>,
}

/// A request, texts in UTF-8.
pub struct RequestModel {
    pub peer: PeerAddress,
    pub host: Option<Seq<u8>>,
    pub version: Seq<u8>,
    pub method: HttpMethod,
    pub route: Seq<u8>,
    pub fields: Seq<Field>,
    pub cookies: Seq<NamedCookie>,
    pub max_body_size: nat,
    pub body: BodyProgress,
    pub path_params: Seq<Pair>,
    pub query_params: Seq<Pair>,
}

/// The method, the route and the version that a request line names.
pub struct RequestLine {
    pub method: HttpMethod,
    pub route: Seq<u8>,
    pub version: Seq<u8>,
}

/// `s`, or nothing where it is not UTF-8.
pub open spec fn text_or_empty(s: Seq<u8>) -> Seq<u8> {
    if valid_utf8(s) {
        s
    } else {
        Seq::empty()
    }
}

/// The method that a name stands for; `GET` where it stands for none.
pub open spec fn method_or_get(name: Seq<u8>) -> HttpMethod {
    match method_of(text_or_empty(name)) {
        Some(m) => m,
        None => HttpMethod::GET,
    }
}

/// The request line that stands before the line feed at `end`.
pub open spec fn first_line(head: Seq<u8>, end: int) -> Seq<u8> {
    let line = head.take(end);
    if line.len() > 0 && line.last() == 13 {
        line.drop_last()
    } else {
        line
    }
}

/// What a request line says: a method, a route and a version, with one space
/// between each two.
pub open spec fn parse_line(line: Seq<u8>) -> Result<RequestLine, RequestFailure> {
    let first = position(line, 32);
    let rest = rest_after(line, first);
    let second = position(rest, 32);
    if first == line.len() {
        Err(RequestFailure::RequestLine("Missing HTTP method".spec_bytes()))
    } else if second == rest.len() {
        Err(RequestFailure::RequestLine("Missing route".spec_bytes()))
    } else {
        Ok(
            RequestLine {
                method: method_or_get(line.take(first)),
                route: text_or_empty(rest.take(second)),
                version: rest.skip(second + 1),
            },
        )
    }
}

/// The length that the header fields give a body; zero where they give none.
pub open spec fn content_length(fields: Seq<Field>) -> nat {
    match field_value(fields, "content-length".spec_bytes()) {
        Some(v) => match number_in(v, usize::MAX as nat) {
            Some(n) => n,
            None => 0,
        },
        None => 0,
    }
}

/// Whether the header fields say that a body comes in chunks.
pub open spec fn chunked(fields: Seq<Field>) -> bool {
    match field_value(fields, "transfer-encoding".spec_bytes()) {
        Some(v) => contains(v, "chunked".spec_bytes()),
        None => false,
    }
}

/// The request that its head stands for: the request line and the header lines
/// behind it.
pub open spec fn parse_request(
    head: Seq<u8>,
    peer: PeerAddress,
    max_body_size: nat,
) -> Result<RequestModel, RequestFailure> {
    let end = position(head, 10);
    if end == head.len() {
        Err(RequestFailure::RequestLine("Missing request line".spec_bytes()))
    } else {
        match parse_line(first_line(head, end)) {
            Err(e) => Err(e),
            Ok(line) => {
                let fields = parse_fields(head.skip(end + 1));
                if content_length(fields) > max_body_size {
                    Err(RequestFailure::PayloadTooLarge)
                } else {
                    Ok(request_of(line, fields, peer, max_body_size))
                }
            },
        }
    }
}

/// The request that a request line and header fields make.
pub open spec fn request_of(
    line: RequestLine,
    fields: Seq<Field>,
    peer: PeerAddress,
    max_body_size: nat,
) -> RequestModel {
    RequestModel {
        peer,
        host: match field_value(fields, "host".spec_bytes()) {
            Some(v) => Some(strip_text(v)),
            None => None,
        },
        version: line.version,
        method: line.method,
        route: line.route,
        fields,
        cookies: match field_value(fields, "cookie".spec_bytes()) {
            Some(v) => parse_cookies(v),
            None => Seq::empty(),
        },
        max_body_size,
        body: BodyProgress::Unread {
            content_length: content_length(fields),
            chunked: chunked(fields),
        },
        path_params: Seq::empty(),
        query_params: form_pairs(query_of(line.route)),
    }
}

impl View for HttpRequest {
    type V = RequestModel;

    closed spec fn view(&self) -> RequestModel {
        RequestModel {
            peer: self.peer,
            host: optional_text(self.host),
            version: octets(self.http_version),
            method: self.method,
            route: encode_utf8(self.route@),
            fields: self.field_lines@,
            cookies: self.cookies@,
            max_body_size: self.max_body_size as nat,
            body: self.body_state@,
            path_params: utf8_pairs(self.path_params@),
            query_params: utf8_pairs(self.query_params@),
        }
    }
}

/// The text that bytes hold; none where they are not UTF-8.
fn text_in(s: &[u8]) -> (r: &str)
    ensures
        r.spec_bytes() == text_or_empty(s@),
        r@ == decode_utf8(text_or_empty(s@)),
{
    proof {
        reveal_strlit("");
        assert(is_ascii(""));
        assert("".spec_bytes() =~= Seq::<u8>::empty());
    }
    let r = match str_from_utf8(s) {
        Ok(t) => t,
        Err(_) => "",
    };
    proof {
        encode_utf8_decode_utf8(r@);
    }
    r
}

impl HttpRequest {
    /// The header fields and the cookies are well kept, and the query's
    /// parameters are those of the route.
    pub closed spec fn wf(&self) -> bool {
        &&& self.field_lines.wf()
        &&& self.cookies.wf()
        &&& self@.query_params == form_pairs(query_of(self@.route))
    }

    /// Reads a request's head.
    pub fn parse(header_bytes: Bytes, peer: PeerAddress, max_body_size: usize) -> (r: Result<
        HttpRequest,
        HttpRequestError,
    >)
        ensures
            match r {
                Ok(q) => q.wf() && parse_request(octets(header_bytes), peer, max_body_size as nat)
                    == Ok::<_, RequestFailure>(q@),
                Err(e) => parse_request(octets(header_bytes), peer, max_body_size as nat) == Err::<
                    RequestModel,
                    _,
                >(e@),
            },
    {
        let head = bytes_as_slice(&header_bytes);
        let n: usize = head.len();
        let end: usize = position_of(head, 10);
        if end == n {
            return Err(
                HttpRequestError::RequestLineParsingFailed("Missing request line".to_owned()),
            );
        }
        let line_end: usize = if end > 0 && head[end - 1] == 13 { end - 1 } else { end };
        let line = slice_subrange(head, 0, line_end);
        assert(line@ =~= first_line(head@, end as int));

        let first: usize = position_of(line, 32);
        if first == line_end {
            return Err(
                HttpRequestError::RequestLineParsingFailed("Missing HTTP method".to_owned()),
            );
        }
        let rest = slice_subrange(line, first + 1, line_end);
        assert(rest@ =~= rest_after(line@, first as int));
        let second: usize = position_of(rest, 32);
        if second == rest.len() {
            return Err(HttpRequestError::RequestLineParsingFailed("Missing route".to_owned()));
        }
        let name = slice_subrange(line, 0, first);
        assert(name@ =~= line@.take(first as int));
        let method: HttpMethod = match HttpMethod::from_str(text_in(name)) {
            Ok(m) => m,
            Err(_) => HttpMethod::GET,
        };
        let target = slice_subrange(rest, 0, second);
        assert(target@ =~= rest@.take(second as int));
        let route: String = text_in(target).to_owned();
        let http_version = bytes_slice(&header_bytes, first + 1 + second + 1, line_end);
        assert(octets(http_version) =~= rest@.skip(second + 1));

        let lines = slice_subrange(head, end + 1, n);
        assert(lines@ =~= head@.skip(end + 1));
        let field_lines = FieldLines::from(lines);
        let host: Option<String> = match field_lines.get("host") {
            Some(h) => Some(strip(h).to_owned()),
            None => None,
        };
        let content_length: usize = match field_lines.get("content-length") {
            Some(v) => match parse_number(v.as_bytes(), usize::MAX as u64) {
                Some(n) => n as usize,
                None => 0,
            },
            None => 0,
        };
        let is_chunked: bool = match field_lines.get("transfer-encoding") {
            Some(v) => contains_bytes(v.as_bytes(), "chunked".as_bytes()),
            None => false,
        };
        if content_length > max_body_size {
            return Err(HttpRequestError::PayloadTooLarge);
        }
        let cookies = match field_lines.get("cookie") {
            Some(v) => CookieStore::from(v.as_bytes()),
            None => CookieStore::new(),
        };
        let query_params: Vec<(String, String)> = parse_query_params(route.as_str());
        let r = HttpRequest {
            peer,
            host,
            http_version,
            method,
            route,
            field_lines,
            cookies,
            max_body_size,
            body_state: BodyState::Unread { content_length, is_chunked },
            path_params: Vec::new(),
            query_params,
        };
        assert(r@.path_params =~= Seq::<Pair>::empty());
        Ok(r)
    }

    /// The other end's address, where it is one of version 4.
    pub fn client_ipv4_address(&self) -> (r: Option<u32>)
        ensures
            r == (match self@.peer {
                PeerAddress::V4(a) => Some(a),
                PeerAddress::V6(_) => None,
            }),
    {
        match self.peer {
            PeerAddress::V4(a) => Some(a),
            PeerAddress::V6(_) => None,
        }
    }

    /// The other end's address, where it is one of version 6.
    pub fn client_ipv6_address(&self) -> (r: Option<u128>)
        ensures
            r == (match self@.peer {
                PeerAddress::V4(_) => None,
                PeerAddress::V6(a) => Some(a),
            }),
    {
        match self.peer {
            PeerAddress::V4(_) => None,
            PeerAddress::V6(a) => Some(a),
        }
    }

    pub fn host(&self) -> (r: Option<&str>)
        ensures
            match r {
                Some(s) => self@.host == Some(s.spec_bytes()),
                None => self@.host is None,
            },
    {
        match &self.host {
            Some(s) => Some(s.as_str()),
            None => None,
        }
    }

    pub fn http_version(&self) -> (r: &Bytes)
        ensures
            octets(*r) == self@.version,
    {
        &self.http_version
    }

    /// The value of the header field called `name` in any case.
    pub fn header(&self, name: &str) -> (r: Option<&str>)
        requires
            self.wf(),
        ensures
            match r {
                Some(v) => field_value(self@.fields, name.spec_bytes()) == Some(v.spec_bytes()),
                None => field_value(self@.fields, name.spec_bytes()) is None,
            },
    {
        self.field_lines.get(name)
    }

    pub fn cookie(&self, name: &str) -> (r: Option<&str>)
        ensures
            match r {
                Some(v) => cookie_value(self@.cookies, name.spec_bytes()) == Some(v.spec_bytes()),
                None => cookie_value(self@.cookies, name.spec_bytes()) is None,
            },
    {
        self.cookies.get(name)
    }

    pub fn route(&self) -> (r: &str)
        ensures
            r.spec_bytes() == self@.route,
    {
        self.route.as_str()
    }

    pub fn method(&self) -> (r: &HttpMethod)
        ensures
            *r == self@.method,
    {
        &self.method
    }

    pub fn max_body_size(&self) -> (r: usize)
        ensures
            r == self@.max_body_size,
    {
        self.max_body_size
    }

    pub fn body_state(&self) -> (r: &BodyState)
        ensures
            r@ == self@.body,
    {
        &self.body_state
    }

    pub fn set_body_state(&mut self, state: BodyState)
        requires
            old(self).wf(),
        ensures
            final(self).wf(),
            final(self)@ == (RequestModel { body: state@, ..old(self)@ }),
    {
        self.body_state = state;
    }

    /// Sets what the matched route's pattern gave names to.
    pub fn set_path_params(&mut self, params: Vec<(String, String)>)
        requires
            old(self).wf(),
        ensures
            final(self).wf(),
            final(self)@ == (RequestModel { path_params: utf8_pairs(params@), ..old(self)@ }),
    {
        self.path_params = params;
    }

    /// The value of the first parameter of the matched route called `name`.
    pub fn path_param(&self, name: &str) -> (r: Option<&str>)
        ensures
            match r {
                Some(v) => pair_value(self@.path_params, name.spec_bytes()) == Some(v.spec_bytes()),
                None => pair_value(self@.path_params, name.spec_bytes()) is None,
            },
    {
        find_pair(&self.path_params, name)
    }

    /// The value of the first parameter of the route's query called `name`.
    pub fn query_param(&self, name: &str) -> (r: Option<&str>)
        requires
            self.wf(),
        ensures
            match r {
                Some(v) => pair_value(form_pairs(query_of(self@.route)), name.spec_bytes()) == Some(
                    v.spec_bytes(),
                ),
                None => pair_value(form_pairs(query_of(self@.route)), name.spec_bytes()) is None,
            },
    {
        find_pair(&self.query_params, name)
    }
}

// ── Laws ───────────────────────────────────────────────────────────────────

/// A request is accepted only where the length that it gives its body is within
/// the limit.
pub proof fn law_size_limit(head: Seq<u8>, peer: PeerAddress, max_body_size: nat)
    ensures
        parse_request(head, peer, max_body_size) matches Ok(q)
            ==> q.body matches BodyProgress::Unread { content_length, chunked }
            && content_length <= max_body_size,
{
}

/// A request line that names a method, a route and a version.
pub open spec fn request_line(method: Seq<u8>, route: Seq<u8>, version: Seq<u8>) -> Seq<u8> {
    method + seq![32u8] + route + seq![32u8] + version
}

/// No byte of `s` is a space or a line feed.
pub open spec fn unbroken(s: Seq<u8>) -> bool {
    forall|i: int| 0 <= i < s.len() ==> #[trigger] s[i] != 32 && s[i] != 10
}

proof fn lemma_line_read(method: Seq<u8>, route: Seq<u8>, version: Seq<u8>)
    requires
        unbroken(method),
        unbroken(route),
        valid_utf8(route),
    ensures
        parse_line(request_line(method, route, version)) == Ok::<_, RequestFailure>(
            RequestLine { method: method_or_get(method), route, version },
        ),
{
    let line = request_line(method, route, version);
    let first = method.len() as int;
    assert forall|j: int| 0 <= j < first implies line[j] != 32 by {
        assert(line[j] == method[j]);
    }
    lemma_position_is(line, 32, first);
    let rest = line.skip(first + 1);
    assert(rest =~= route + seq![32u8] + version);
    let second = route.len() as int;
    assert forall|j: int| 0 <= j < second implies rest[j] != 32 by {
        assert(rest[j] == route[j]);
    }
    lemma_position_is(rest, 32, second);
    assert(line.take(first) =~= method);
    assert(rest.take(second) =~= route);
    assert(rest.skip(second + 1) =~= version);
}

/// A request's head is read back as it was written: a request line of unbroken
/// parts, clean header fields and an empty line make the request with that
/// method, route and version and those fields.
pub proof fn law_head_reads_back(
    method: Seq<u8>,
    route: Seq<u8>,
    version: Seq<u8>,
    fields: Seq<Field>,
    peer: PeerAddress,
    max_body_size: nat,
)
    requires
        unbroken(method),
        unbroken(route),
        unbroken(version),
        valid_utf8(route),
        well_kept(fields),
        forall|k: int| 0 <= k < fields.len() ==> clean(#[trigger] fields[k]),
        content_length(fields) <= max_body_size,
    ensures
        parse_request(
            request_line(method, route, version) + "\r\n".spec_bytes() + field_block(fields)
                + "\r\n".spec_bytes(),
            peer,
            max_body_size,
        ) == Ok::<_, RequestFailure>(
            request_of(
                RequestLine { method: method_or_get(method), route, version },
                fields,
                peer,
                max_body_size,
            ),
        ),
{
    reveal_strlit("\r\n");
    assert(is_ascii("\r\n"));
    let eol = "\r\n".spec_bytes();
    assert(eol =~= seq![13u8, 10u8]);
    let line = request_line(method, route, version);
    let block = field_block(fields) + eol;
    let head = line + eol + field_block(fields) + eol;
    let end = line.len() as int + 1;
    assert(head =~= line + eol + block);
    assert forall|j: int| 0 <= j < end implies head[j] != 10 by {
        if j < line.len() {
            assert(head[j] == line[j]);
            if j < method.len() {
                assert(line[j] == method[j]);
            } else if method.len() < j <= method.len() + route.len() {
                assert(line[j] == route[j - method.len() - 1]);
            } else if j > method.len() + route.len() + 1 {
                assert(line[j] == version[j - method.len() - route.len() - 2]);
            }
        } else {
            assert(head[j] == 13);
        }
    }
    assert(head[end] == 10);
    lemma_position_is(head, 10, end);
    assert(head.take(end).drop_last() =~= line);
    assert(head.take(end).last() == 13);
    lemma_line_read(method, route, version);
    assert(head.skip(end + 1) =~= block);
    law_fields_read_back(fields);
}

impl HttpRequest {
    /// The parameters of a request's query are always those in its route.
    pub proof fn law_query_of_route(&self)
        requires
            self.wf(),
        ensures
            self@.query_params == form_pairs(query_of(self@.route)),
    {
    }
}

/// The names of two methods differ, in whatever case they are written, so a
/// method is found by its own name in any case, and by no other text.
pub proof fn law_method_names(method: HttpMethod, text: Seq<u8>)
    ensures
        method_of(text) == Some(method) <==> same_ignoring_case(text, method.name()),
        method_of(method.name()) == Some(method),
        valid_utf8(method.name()),
        method_or_get(method.name()) == method,
{
    reveal_strlit("GET");
    reveal_strlit("POST");
    reveal_strlit("PATCH");
    reveal_strlit("PUT");
    reveal_strlit("DELETE");
    reveal_strlit("OPTIONS");
    reveal_strlit("HEAD");
    reveal_strlit("CONNECT");
    reveal_strlit("TRACE");
    assert(is_ascii("GET") && is_ascii("POST") && is_ascii("PATCH") && is_ascii("PUT") && is_ascii(
        "DELETE",
    ) && is_ascii("OPTIONS") && is_ascii("HEAD") && is_ascii("CONNECT") && is_ascii("TRACE"));
    let get = lower_all("GET".spec_bytes());
    let put = lower_all("PUT".spec_bytes());
    let post = lower_all("POST".spec_bytes());
    let head = lower_all("HEAD".spec_bytes());
    let patch = lower_all("PATCH".spec_bytes());
    let trace = lower_all("TRACE".spec_bytes());
    let options = lower_all("OPTIONS".spec_bytes());
    let connect = lower_all("CONNECT".spec_bytes());
    let delete = lower_all("DELETE".spec_bytes());
    assert(get.len() == 3 && put.len() == 3 && post.len() == 4 && head.len() == 4 && patch.len()
        == 5 && trace.len() == 5 && delete.len() == 6 && options.len() == 7 && connect.len() == 7);
    assert(get[0] == 103 && put[0] == 112 && post[0] == 112 && head[0] == 104 && patch[0] == 112
        && trace[0] == 116 && options[0] == 111 && connect[0] == 99);
    lemma_ascii_valid(method.name());
}

/// The value under a name is that of the first pair with that name, and there is
/// none where no pair has it.
pub proof fn law_pair_value(pairs: Seq<Pair>, name: Seq<u8>, i: int)
    ensures
        0 <= i < pairs.len() && pairs[i].0 == name && (forall|j: int|
            0 <= j < i ==> (#[trigger] pairs[j]).0 != name) ==> pair_value(pairs, name) == Some(
            pairs[i].1,
        ),
        (forall|j: int| 0 <= j < pairs.len() ==> (#[trigger] pairs[j]).0 != name) ==> pair_value(
            pairs,
            name,
        ) is None,
{
    lemma_pair_index(pairs, name);
}

/// The query of a route is what stands behind its first question mark.
pub proof fn law_query(path: Seq<u8>, query: Seq<u8>)
    requires
        forall|i: int| 0 <= i < path.len() ==> #[trigger] path[i] != 63,
    ensures
        query_of(path + seq![63u8] + query) == query,
        query_of(path) == Seq::<u8>::empty(),
{
    law_rest_after(path, 63, query);
}

/// Each method goes by its own name.
pub proof fn law_names_of_methods()
    ensures
        method_of("GET".spec_bytes()) == Some(HttpMethod::GET),
        method_of("POST".spec_bytes()) == Some(HttpMethod::POST),
        method_of("PATCH".spec_bytes()) == Some(HttpMethod::PATCH),
        method_of("PUT".spec_bytes()) == Some(HttpMethod::PUT),
        method_of("DELETE".spec_bytes()) == Some(HttpMethod::DELETE),
        method_of("OPTIONS".spec_bytes()) == Some(HttpMethod::OPTIONS),
        method_of("HEAD".spec_bytes()) == Some(HttpMethod::HEAD),
        method_of("CONNECT".spec_bytes()) == Some(HttpMethod::CONNECT),
        method_of("TRACE".spec_bytes()) == Some(HttpMethod::TRACE),
{
    let none = Seq::<u8>::empty();
    law_method_names(HttpMethod::GET, none);
    law_method_names(HttpMethod::POST, none);
    law_method_names(HttpMethod::PATCH, none);
    law_method_names(HttpMethod::PUT, none);
    law_method_names(HttpMethod::DELETE, none);
    law_method_names(HttpMethod::OPTIONS, none);
    law_method_names(HttpMethod::HEAD, none);
    law_method_names(HttpMethod::CONNECT, none);
    law_method_names(HttpMethod::TRACE, none);
}

/// The length of a request's body depends on its header fields alone: whatever the
/// method, it is the number in the field `content-length`, and nothing where that
/// field is not there or holds no number. The body comes in chunks exactly where
/// the field `transfer-encoding` says so.
pub proof fn law_length_by_fields(head: Seq<u8>, peer: PeerAddress, max_body_size: nat, n: nat)
    requires
        parse_request(head, peer, max_body_size) is Ok,
    ensures
        ({
            let q = parse_request(head, peer, max_body_size)->Ok_0;
            let given = field_value(q.fields, "content-length".spec_bytes());
            let coding = field_value(q.fields, "transfer-encoding".spec_bytes());
            &&& q.body matches BodyProgress::Unread { content_length, chunked }
            &&& given == Some(decimal(n)) && n <= usize::MAX ==> content_length == n
            &&& given is None ==> content_length == 0
            &&& given matches Some(v) ==> match number_in(v, usize::MAX as nat) {
                Some(m) => content_length == m,
                None => content_length == 0,
            }
            &&& chunked <==> (coding matches Some(v) && contains(v, "chunked".spec_bytes()))
        }),
{
    if n <= usize::MAX {
        law_decimal_reads_back(n, usize::MAX as nat);
    }
}

/// Two requests with the same header fields have bodies of the same length, the
/// same host and the same cookies, whatever their methods and routes.
pub proof fn law_same_fields(a: Seq<u8>, b: Seq<u8>, peer: PeerAddress, max_body_size: nat)
    requires
        parse_request(a, peer, max_body_size) is Ok,
        parse_request(b, peer, max_body_size) is Ok,
        parse_request(a, peer, max_body_size)->Ok_0.fields == parse_request(
            b,
            peer,
            max_body_size,
        )->Ok_0.fields,
    ensures
        ({
            let x = parse_request(a, peer, max_body_size)->Ok_0;
            let y = parse_request(b, peer, max_body_size)->Ok_0;
            x.body == y.body && x.host == y.host && x.cookies == y.cookies
        }),
{
}

proof fn lemma_method_or_get(name: Seq<u8>, m: HttpMethod)
    ensures
        same_ignoring_case(name, m.name()) ==> method_or_get(name) == m,
        (forall|o: HttpMethod| !same_ignoring_case(name, #[trigger] o.name())) ==> method_or_get(
            name,
        ) == HttpMethod::GET,
{
    law_method_names(m, name);
    law_method_names(method_or_get(name), text_or_empty(name));
    if same_ignoring_case(name, m.name()) {
        law_same_ignoring_case(name, m.name());
        let own = m.name();
        lemma_name_ascii(m);
        assert forall|i: int| 0 <= i < name.len() implies #[trigger] name[i] < 128 by {
            assert(own[i] < 128);
        }
        lemma_ascii_valid(name);
    } else if forall|o: HttpMethod| !same_ignoring_case(name, #[trigger] o.name()) {
        if method_of(text_or_empty(name)) is Some {
            let o = method_of(text_or_empty(name))->Some_0;
            law_method_names(o, text_or_empty(name));
            assert(!same_ignoring_case(name, o.name()));
            assert(text_or_empty(name).len() == 0);
            law_same_ignoring_case(text_or_empty(name), o.name());
            lemma_name_ascii(o);
        }
    }
}

proof fn lemma_name_ascii(m: HttpMethod)
    ensures
        m.name().len() > 0,
        forall|i: int| 0 <= i < m.name().len() ==> #[trigger] m.name()[i] < 128,
{
    reveal_strlit("GET");
    reveal_strlit("POST");
    reveal_strlit("PATCH");
    reveal_strlit("PUT");
    reveal_strlit("DELETE");
    reveal_strlit("OPTIONS");
    reveal_strlit("HEAD");
    reveal_strlit("CONNECT");
    reveal_strlit("TRACE");
    assert(is_ascii("GET") && is_ascii("POST") && is_ascii("PATCH") && is_ascii("PUT") && is_ascii(
        "DELETE",
    ) && is_ascii("OPTIONS") && is_ascii("HEAD") && is_ascii("CONNECT") && is_ascii("TRACE"));
}

/// What a request's head says. In front of the first line feed, without a carriage
/// return there, stand the method, the route and the version with one space
/// between each two; a method that is none counts as `GET`, and a route that is no
/// text as an empty one. Behind it stand the header fields, which give the host,
/// the cookies and the length of the body. The request is refused only where that
/// length is over the limit.
#[verifier::spinoff_prover]
pub proof fn law_request_parts(
    method: Seq<u8>,
    route: Seq<u8>,
    version: Seq<u8>,
    cr: bool,
    block: Seq<u8>,
    peer: PeerAddress,
    max_body_size: nat,
    m: HttpMethod,
)
    requires
        unbroken(method),
        unbroken(route),
        forall|i: int| 0 <= i < version.len() ==> #[trigger] version[i] != 10,
        !cr && version.len() > 0 ==> version.last() != 13,
    ensures
        ({
            let line = method + seq![32u8] + route + seq![32u8] + version;
            let ending = if cr {
                seq![13u8, 10u8]
            } else {
                seq![10u8]
            };
            let fields = parse_fields(block);
            let given = field_value(fields, "content-length".spec_bytes());
            match parse_request(line + ending + block, peer, max_body_size) {
                Err(e) => {
                    &&& e == RequestFailure::PayloadTooLarge
                    &&& given matches Some(v)
                    &&& number_in(v, usize::MAX as nat) matches Some(n)
                    &&& n > max_body_size
                },
                Ok(q) => {
                    &&& q.peer == peer
                    &&& q.max_body_size == max_body_size
                    &&& q.version == version
                    &&& valid_utf8(route) ==> q.route == route
                    &&& !valid_utf8(route) ==> q.route.len() == 0
                    &&& same_ignoring_case(method, m.name()) ==> q.method == m
                    &&& (forall|o: HttpMethod| !same_ignoring_case(method, #[trigger] o.name()))
                        ==> q.method == HttpMethod::GET
                    &&& q.fields == fields
                    &&& match field_value(fields, "host".spec_bytes()) {
                        Some(v) => q.host == Some(strip_text(v)),
                        None => q.host is None,
                    }
                    &&& match field_value(fields, "cookie".spec_bytes()) {
                        Some(v) => q.cookies == parse_cookies(v),
                        None => q.cookies.len() == 0,
                    }
                    &&& q.path_params.len() == 0
                    &&& q.query_params == form_pairs(query_of(q.route))
                    &&& given matches Some(v) ==> (number_in(v, usize::MAX as nat) matches Some(n)
                        ==> n <= max_body_size)
                },
            }
        }),
{
    let line = method + seq![32u8] + route + seq![32u8] + version;
    let ending = if cr {
        seq![13u8, 10u8]
    } else {
        seq![10u8]
    };
    let head = line + ending + block;
    let end = line.len() as int + ending.len() - 1;
    assert forall|j: int| 0 <= j < line.len() implies #[trigger] line[j] != 10 by {
        if j < method.len() {
            assert(line[j] == method[j]);
        } else if method.len() < j <= method.len() + route.len() {
            assert(line[j] == route[j - method.len() - 1]);
        } else if j > method.len() + route.len() + 1 {
            assert(line[j] == version[j - method.len() - route.len() - 2]);
        }
    }
    assert forall|j: int| 0 <= j < end implies head[j] != 10 by {
        if j < line.len() {
            assert(head[j] == line[j]);
        }
    }
    lemma_position_is(head, 10, end);
    assert(head.skip(end + 1) =~= block);
    if cr {
        assert(head.take(end).last() == 13);
        assert(head.take(end).drop_last() =~= line);
    } else {
        assert(head.take(end) =~= line);
        assert(line.last() != 13) by {
            if version.len() > 0 {
                assert(line.last() == version.last());
            } else {
                assert(line.last() == 32);
            }
        }
    }
    assert(first_line(head, end) == line);
    assert forall|i: int| 0 <= i < method.len() implies #[trigger] method[i] != 32 by {}
    assert forall|i: int| 0 <= i < route.len() implies #[trigger] route[i] != 32 by {}
    let rest = route + seq![32u8] + version;
    assert(line =~= method + seq![32u8] + rest);
    law_rest_after(method, 32, rest);
    law_rest_after(route, 32, version);
    assert(rest.skip(route.len() as int + 1) =~= version);
    lemma_method_or_get(method, m);
}

/// What is no request line: a head without a line feed, a first line without a
/// space, and one with a single space, each with its own reason.
#[verifier::spinoff_prover]
pub proof fn law_broken_request_line(
    first: Seq<u8>,
    second: Seq<u8>,
    block: Seq<u8>,
    peer: PeerAddress,
    max_body_size: nat,
)
    requires
        unbroken(first),
        unbroken(second),
    ensures
        parse_request(first + seq![32u8] + second, peer, max_body_size) == Err::<RequestModel, _>(
            RequestFailure::RequestLine("Missing request line".spec_bytes()),
        ),
        parse_request(first + seq![13u8, 10u8] + block, peer, max_body_size) == Err::<
            RequestModel,
            _,
        >(RequestFailure::RequestLine("Missing HTTP method".spec_bytes())),
        parse_request(first + seq![32u8] + second + seq![13u8, 10u8] + block, peer, max_body_size)
            == Err::<RequestModel, _>(
            RequestFailure::RequestLine("Missing route".spec_bytes()),
        ),
{
    let bare = first + seq![32u8] + second;
    assert forall|j: int| 0 <= j < bare.len() implies #[trigger] bare[j] != 10 by {
        if j < first.len() {
            assert(bare[j] == first[j]);
        } else if j > first.len() {
            assert(bare[j] == second[j - first.len() - 1]);
        }
    }
    lemma_position_is(bare, 10, bare.len() as int);
    let one = first + seq![13u8, 10u8] + block;
    let at = first.len() as int + 1;
    assert forall|j: int| 0 <= j < at implies one[j] != 10 by {
        if j < first.len() {
            assert(one[j] == first[j]);
        }
    }
    lemma_position_is(one, 10, at);
    assert(one.take(at).drop_last() =~= first);
    assert(one.take(at).last() == 13);
    lemma_position_is(first, 32, first.len() as int);
    let two = bare + seq![13u8, 10u8] + block;
    let end = bare.len() as int + 1;
    assert forall|j: int| 0 <= j < end implies two[j] != 10 by {
        if j < bare.len() {
            assert(two[j] == bare[j]);
        }
    }
    lemma_position_is(two, 10, end);
    assert(two.take(end).drop_last() =~= bare);
    assert(two.take(end).last() == 13);
    law_rest_after(first, 32, second);
    lemma_position_is(second, 32, second.len() as int);
}

/// What a failure is called: one that names its reason by that, and the others each
/// by its own words.
pub proof fn law_failure_words(f: RequestFailure)
    ensures
        f matches RequestFailure::RequestLine(s) ==> failure_text(f) == Some(s),
        f matches RequestFailure::Header(s) ==> failure_text(f) == Some(s),
        f matches RequestFailure::Body(s) ==> failure_text(f) == Some(s),
        f matches RequestFailure::Request(s) ==> failure_text(f) == Some(s),
        f is InvalidMethod ==> failure_text(f) == Some("invalid http method".spec_bytes()),
        f is PayloadTooLarge ==> failure_text(f) == Some("payload too large".spec_bytes()),
        f is RequestLineTooLong ==> failure_text(f) == Some("request line too long".spec_bytes()),
        f is HeadersTooLarge ==> failure_text(f) == Some("headers too large".spec_bytes()),
        f is Timeout ==> failure_text(f) == Some("request time out".spec_bytes()),
        f is Io <==> failure_text(f) is None,
{
}

/// Each error stands for the failure of its own kind, and each state of a body for
/// its own.
pub proof fn law_failures(e: HttpRequestError, b: BodyState)
    ensures
        e matches HttpRequestError::RequestLineParsingFailed(s) ==> e@
            == RequestFailure::RequestLine(encode_utf8(s@)),
        e matches HttpRequestError::HeaderParsingFailed(s) ==> e@ == RequestFailure::Header(
            encode_utf8(s@),
        ),
        e matches HttpRequestError::BodyParsingFailed(s) ==> e@ == RequestFailure::Body(
            encode_utf8(s@),
        ),
        e matches HttpRequestError::RequestParsingFailed(s) ==> e@ == RequestFailure::Request(
            encode_utf8(s@),
        ),
        e matches HttpRequestError::Io(o) ==> e@ == RequestFailure::Io(o),
        e is InvalidHttpMethod ==> e@ is InvalidMethod,
        e is PayloadTooLarge ==> e@ is PayloadTooLarge,
        e is RequestLineTooLong ==> e@ is RequestLineTooLong,
        e is HeadersTooLarge ==> e@ is HeadersTooLarge,
        e is Timeout ==> e@ is Timeout,
        b matches BodyState::Unread { content_length, is_chunked } ==> b@ == (
        BodyProgress::Unread { content_length: content_length as nat, chunked: is_chunked }),
        b is Reading ==> b@ is Reading,
        b matches BodyState::Read(c) ==> b@ == BodyProgress::Read(c@),
{
}

} // verus!

//! Responses.

use crate::body::{Body, Content};
use crate::compress::{chosen_encoding, compressible, Compress, Encoding};
use crate::cookie_store::{
    cookie_index, cookie_value, drop_cookie, law_dropped_cookie, law_set_cookie,
    lemma_cookie_index, names_distinct, optional_attributes, optional_text, put_cookie,
    CookieOptions, CookieStore, NamedCookie,
};
use crate::field_lines::{
    add_field, drop_field, field_value, law_added_field, law_dropped_field, well_kept, Field,
    FieldLines,
};
use crate::numbers::{decimal, number_text};
use crate::outside::{
    bytes_as_slice, bytes_from_str, bytes_from_vec, hyphenated, json_text, json_to_vec, octets,
    stripped, uuid_text,
};
use crate::text::{
    equal_ignoring_case, law_same_ignoring_case, lower_all, same_ignoring_case,
};
use bytes::Bytes;
use std::marker::PhantomData;
use vstd::prelude::*;
use vstd::std_specs::convert::FromSpecImpl;
use vstd::string::{is_ascii, StringSliceAdditionalSpecFns};
use vstd::utf8::*;

verus! {

// ── Status codes ───────────────────────────────────────────────────────────

#[derive(Debug, Clone, Copy, PartialEq, Eq, Structural)]
pub enum HttpStatusCode {
    OK,
    Created,
    Accepted,
    NoContent,
    BadRequest,
    Unauthorized,
    Forbidden,
    NotFound,
    InternalServerError,
    NotImplemented,
    BadGateWay,
    ServiceUnavailable,
    ContentTooLarge,
    UriTooLong,
    RequestHeaderFieldsTooLarge,
    NotModified,
    MethodNotAllowed,
    PartialContent,
    RequestTimeout,
}

impl HttpStatusCode {
    /// The code and the reason as they stand in a status line.
    pub open spec fn text(self) -> Seq<u8> {
        match self {
            HttpStatusCode::OK => "200 OK".spec_bytes(),
            HttpStatusCode::Created => "201 Created".spec_bytes(),
            HttpStatusCode::Accepted => "202 Accepted".spec_bytes(),
            HttpStatusCode::NoContent => "204 No Content".spec_bytes(),
            HttpStatusCode::PartialContent => "206 Partial Content".spec_bytes(),
            HttpStatusCode::NotModified => "304 Not Modified".spec_bytes(),
            HttpStatusCode::BadRequest => "400 Bad Request".spec_bytes(),
            HttpStatusCode::Unauthorized => "401 Unauthorized".spec_bytes(),
            HttpStatusCode::Forbidden => "403 Forbidden".spec_bytes(),
            HttpStatusCode::NotFound => "404 Not Found".spec_bytes(),
            HttpStatusCode::MethodNotAllowed => "405 Method Not Allowed".spec_bytes(),
            HttpStatusCode::RequestTimeout => "408 Request Timeout".spec_bytes(),
            HttpStatusCode::ContentTooLarge => "413 Content Too Large".spec_bytes(),
            HttpStatusCode::UriTooLong => "414 URI Too Long".spec_bytes(),
            HttpStatusCode::RequestHeaderFieldsTooLarge => {
                "431 Request Header Fields Too Large".spec_bytes()
            },
            HttpStatusCode::InternalServerError => "500 Internal Server Error".spec_bytes(),
            HttpStatusCode::NotImplemented => "501 Not Implemented".spec_bytes(),
            HttpStatusCode::BadGateWay => "502 Bad Gateway".spec_bytes(),
            HttpStatusCode::ServiceUnavailable => "503 Service Unavailable".spec_bytes(),
        }
    }

    /// The code's number.
    pub open spec fn number(self) -> u16 {
        match self {
            HttpStatusCode::OK => 200,
            HttpStatusCode::Created => 201,
            HttpStatusCode::Accepted => 202,
            HttpStatusCode::NoContent => 204,
            HttpStatusCode::PartialContent => 206,
            HttpStatusCode::NotModified => 304,
            HttpStatusCode::BadRequest => 400,
            HttpStatusCode::Unauthorized => 401,
            HttpStatusCode::Forbidden => 403,
            HttpStatusCode::NotFound => 404,
            HttpStatusCode::MethodNotAllowed => 405,
            HttpStatusCode::RequestTimeout => 408,
            HttpStatusCode::ContentTooLarge => 413,
            HttpStatusCode::UriTooLong => 414,
            HttpStatusCode::RequestHeaderFieldsTooLarge => 431,
            HttpStatusCode::InternalServerError => 500,
            HttpStatusCode::NotImplemented => 501,
            HttpStatusCode::BadGateWay => 502,
            HttpStatusCode::ServiceUnavailable => 503,
        }
    }

    /// The code and the reason as they stand in a status line.
    pub fn to_bytes(&self) -> (r: Bytes)
        ensures
            octets(r) == self.text(),
    {
        match self {
            HttpStatusCode::OK => bytes_from_str("200 OK"),
            HttpStatusCode::Created => bytes_from_str("201 Created"),
            HttpStatusCode::Accepted => bytes_from_str("202 Accepted"),
            HttpStatusCode::NoContent => bytes_from_str("204 No Content"),
            HttpStatusCode::PartialContent => bytes_from_str("206 Partial Content"),
            HttpStatusCode::NotModified => bytes_from_str("304 Not Modified"),
            HttpStatusCode::BadRequest => bytes_from_str("400 Bad Request"),
            HttpStatusCode::Unauthorized => bytes_from_str("401 Unauthorized"),
            HttpStatusCode::Forbidden => bytes_from_str("403 Forbidden"),
            HttpStatusCode::NotFound => bytes_from_str("404 Not Found"),
            HttpStatusCode::MethodNotAllowed => bytes_from_str("405 Method Not Allowed"),
            HttpStatusCode::RequestTimeout => bytes_from_str("408 Request Timeout"),
            HttpStatusCode::ContentTooLarge => bytes_from_str("413 Content Too Large"),
            HttpStatusCode::UriTooLong => bytes_from_str("414 URI Too Long"),
            HttpStatusCode::RequestHeaderFieldsTooLarge => {
                bytes_from_str("431 Request Header Fields Too Large")
            },
            HttpStatusCode::InternalServerError => bytes_from_str("500 Internal Server Error"),
            HttpStatusCode::NotImplemented => bytes_from_str("501 Not Implemented"),
            HttpStatusCode::BadGateWay => bytes_from_str("502 Bad Gateway"),
            HttpStatusCode::ServiceUnavailable => bytes_from_str("503 Service Unavailable"),
        }
    }
}

impl FromSpecImpl<HttpStatusCode> for u16 {
    open spec fn obeys_from_spec() -> bool {
        true
    }

    open spec fn from_spec(value: HttpStatusCode) -> u16 {
        value.number()
    }
}

impl From<HttpStatusCode> for u16 {
    fn from(value: HttpStatusCode) -> (r: u16) {
        match value {
            HttpStatusCode::OK => 200,
            HttpStatusCode::Created => 201,
            HttpStatusCode::Accepted => 202,
            HttpStatusCode::NoContent => 204,
            HttpStatusCode::PartialContent => 206,
            HttpStatusCode::NotModified => 304,
            HttpStatusCode::BadRequest => 400,
            HttpStatusCode::Unauthorized => 401,
            HttpStatusCode::Forbidden => 403,
            HttpStatusCode::NotFound => 404,
            HttpStatusCode::MethodNotAllowed => 405,
            HttpStatusCode::RequestTimeout => 408,
            HttpStatusCode::ContentTooLarge => 413,
            HttpStatusCode::UriTooLong => 414,
            HttpStatusCode::RequestHeaderFieldsTooLarge => 431,
            HttpStatusCode::InternalServerError => 500,
            HttpStatusCode::NotImplemented => 501,
            HttpStatusCode::BadGateWay => 502,
            HttpStatusCode::ServiceUnavailable => 503,
        }
    }
}

// ── Reserved headers ───────────────────────────────────────────────────────

/// A header field that only the server itself sets.
pub open spec fn reserved(name: Seq<u8>) -> bool {
    ||| same_ignoring_case(name, "content-type".spec_bytes())
    ||| same_ignoring_case(name, "content-length".spec_bytes())
    ||| same_ignoring_case(name, "x-request-id".spec_bytes())
    ||| same_ignoring_case(name, "access-control-allow-origin".spec_bytes())
    ||| same_ignoring_case(name, "access-control-allow-credentials".spec_bytes())
    ||| same_ignoring_case(name, "access-control-allow-methods".spec_bytes())
    ||| same_ignoring_case(name, "access-control-request-headers".spec_bytes())
    ||| same_ignoring_case(name, "access-control-max-age".spec_bytes())
    ||| same_ignoring_case(name, "access-control-expose-headers".spec_bytes())
    ||| same_ignoring_case(name, "cookie".spec_bytes())
    ||| same_ignoring_case(name, "set-cookie".spec_bytes())
    ||| same_ignoring_case(name, "accept-encoding".spec_bytes())
    ||| same_ignoring_case(name, "date".spec_bytes())
    ||| same_ignoring_case(name, "connection".spec_bytes())
    ||| same_ignoring_case(name, "keep-alive".spec_bytes())
    ||| same_ignoring_case(name, "content-range".spec_bytes())
    ||| same_ignoring_case(name, "accept-ranges".spec_bytes())
}

/// Whether a header field is one that only the server itself sets.
pub fn is_reserved(name: &str) -> (r: bool)
    ensures
        r == reserved(name.spec_bytes()),
{
    let n = name.as_bytes();
    equal_ignoring_case(n, "content-type".as_bytes())
        || equal_ignoring_case(n, "content-length".as_bytes())
        || equal_ignoring_case(n, "x-request-id".as_bytes())
        || equal_ignoring_case(n, "access-control-allow-origin".as_bytes())
        || equal_ignoring_case(n, "access-control-allow-credentials".as_bytes())
        || equal_ignoring_case(n, "access-control-allow-methods".as_bytes())
        || equal_ignoring_case(n, "access-control-request-headers".as_bytes())
        || equal_ignoring_case(n, "access-control-max-age".as_bytes())
        || equal_ignoring_case(n, "access-control-expose-headers".as_bytes())
        || equal_ignoring_case(n, "cookie".as_bytes())
        || equal_ignoring_case(n, "set-cookie".as_bytes())
        || equal_ignoring_case(n, "accept-encoding".as_bytes())
        || equal_ignoring_case(n, "date".as_bytes())
        || equal_ignoring_case(n, "connection".as_bytes())
        || equal_ignoring_case(n, "keep-alive".as_bytes())
        || equal_ignoring_case(n, "content-range".as_bytes())
        || equal_ignoring_case(n, "accept-ranges".as_bytes())
}

// ── Responses ──────────────────────────────────────────────────────────────

/// What a response carries: a body held in memory, or a reader that yields it.
pub enum Payload<R> {
    Bytes(Body),
    Stream { reader: R, content_length: u64, content_type: Option<String> },
}

/// What a response carries, texts in UTF-8.
pub enum PayloadModel<R> {
    Bytes(Content),
    Stream { reader: R, content_length: nat, content_type: Option<Seq<u8>> },
}

impl<R> View for Payload<R> {
    type V = PayloadModel<R>;

    open spec fn view(&self) -> PayloadModel<R> {
        match self {
            Payload::Bytes(b) => PayloadModel::Bytes(b@),
            Payload::Stream { reader, content_length, content_type } => PayloadModel::Stream {
                reader: *reader,
                content_length: *content_length as nat,
                content_type: optional_text(*content_type),
            },
        }
    }
}

/// No body has been decided on yet.
pub struct HttpResponseBodyUnInitialized;

/// The body has been decided on.
pub struct HttpResponseBodyInitialized;

/// A response, whose body may be one that a reader of type `R` yields.
pub struct HttpResponse<State, R> {
    http_version: Bytes,
    path: String,
    status_code: HttpStatusCode,
    body: Option<Payload<R>>,
    field_lines: FieldLines,
    cookies: Option<CookieStore>,
    suppress_body: bool,
    _state: PhantomData<State>,
}

/// A response, texts in UTF-8.
pub struct ResponseModel<R> {
    pub version: Seq<u8>,
    pub path: Seq<u8>,
    pub status: HttpStatusCode,
    pub body: Option<PayloadModel<R>>,
    pub fields: Seq<Field>,
    pub cookies: Option<Seq<NamedCookie>>,
    pub suppressed: bool,
}

impl<State, R> View for HttpResponse<State, R> {
    type V = ResponseModel<R>;

    closed spec fn view(&self) -> ResponseModel<R> {
        ResponseModel {
            version: octets(self.http_version),
            path: encode_utf8(self.path@),
            status: self.status_code,
            body: match self.body {
                Some(p) => Some(p@),
                None => None,
            },
            fields: self.field_lines@,
            cookies: match self.cookies {
                Some(c) => Some(c@),
                None => None,
            },
            suppressed: self.suppress_body,
        }
    }
}

/// The response that a request is first given.
pub open spec fn fresh_response<R>(version: Seq<u8>, id: nat, path: Seq<u8>) -> ResponseModel<R> {
    ResponseModel {
        version,
        path,
        status: HttpStatusCode::OK,
        body: None,
        fields: add_field(Seq::empty(), "x-request-id".spec_bytes(), hyphenated(id)),
        cookies: None,
        suppressed: false,
    }
}

/// The header fields with a content type and a content length added.
pub open spec fn with_content(fields: Seq<Field>, content_type: Seq<u8>, len: nat) -> Seq<Field> {
    add_field(
        add_field(fields, "content-type".spec_bytes(), content_type),
        "content-length".spec_bytes(),
        decimal(len),
    )
}

/// The response with a body that is held in memory.
pub open spec fn with_bytes<R>(
    m: ResponseModel<R>,
    bytes: Seq<u8>,
    content_type: Seq<u8>,
) -> ResponseModel<R> {
    ResponseModel {
        body: Some(
            PayloadModel::Bytes(Content { bytes, content_type: Some(content_type) }),
        ),
        fields: with_content(m.fields, content_type, bytes.len()),
        ..m
    }
}

/// The response with a header field added, unless it is reserved.
pub open spec fn with_header<R>(
    m: ResponseModel<R>,
    name: Seq<u8>,
    value: Seq<u8>,
) -> ResponseModel<R> {
    if reserved(name) {
        m
    } else {
        ResponseModel { fields: add_field(m.fields, name, value), ..m }
    }
}

/// The response without a header field, unless it is reserved.
pub open spec fn without_header<R>(m: ResponseModel<R>, name: Seq<u8>) -> ResponseModel<R> {
    if reserved(name) {
        m
    } else {
        ResponseModel { fields: drop_field(m.fields, name), ..m }
    }
}

/// The response with a cookie.
pub open spec fn with_cookie<R>(m: ResponseModel<R>, cookie: NamedCookie) -> ResponseModel<R> {
    ResponseModel {
        cookies: Some(
            put_cookie(
                match m.cookies {
                    Some(c) => c,
                    None => Seq::empty(),
                },
                cookie,
            ),
        ),
        ..m
    }
}

/// The response without a cookie.
pub open spec fn without_cookie<R>(m: ResponseModel<R>, name: Seq<u8>) -> ResponseModel<R> {
    ResponseModel {
        cookies: match m.cookies {
            Some(c) => Some(drop_cookie(c, name)),
            None => None,
        },
        ..m
    }
}

impl<R> HttpResponse<HttpResponseBodyUnInitialized, R> {
    pub fn new(http_version: Bytes, request_id: u128, path: String) -> (r: Self)
        ensures
            r.wf(),
            r@ == fresh_response::<R>(
                octets(http_version),
                request_id as nat,
                encode_utf8(path@),
            ),
    {
        let mut field_lines = FieldLines::new();
        field_lines.set("x-request-id", uuid_text(request_id).as_str());
        HttpResponse {
            http_version,
            path,
            status_code: HttpStatusCode::OK,
            body: None,
            field_lines,
            cookies: None,
            suppress_body: false,
            _state: PhantomData,
        }
    }

    fn into_initialized(self, body: Option<Payload<R>>) -> (r: HttpResponse<
        HttpResponseBodyInitialized,
        R,
    >)
        requires
            self.wf(),
        ensures
            r.wf(),
            r@ == (ResponseModel {
                body: match body {
                    Some(p) => Some(p@),
                    None => None,
                },
                ..self@
            }),
    {
        HttpResponse {
            http_version: self.http_version,
            path: self.path,
            status_code: self.status_code,
            body,
            field_lines: self.field_lines,
            cookies: self.cookies,
            suppress_body: self.suppress_body,
            _state: PhantomData,
        }
    }

    /// Answers with a JSON value.
    pub fn json(self, value: &serde_json::Value) -> (r: HttpResponse<
        HttpResponseBodyInitialized,
        R,
    >)
        requires
            self.wf(),
        ensures
            r.wf(),
            r@ == with_bytes(self@, json_text(*value), "application/json".spec_bytes()),
    {
        self.json_encoded(bytes_from_vec(json_to_vec(value)))
    }

    /// Answers with a JSON text.
    pub fn json_encoded(self, text: Bytes) -> (r: HttpResponse<HttpResponseBodyInitialized, R>)
        requires
            self.wf(),
        ensures
            r.wf(),
            r@ == with_bytes(self@, octets(text), "application/json".spec_bytes()),
    {
        self.bytes(text, "application/json".to_owned())
    }

    /// Answers with bytes.
    pub fn bytes(self, bytes: Bytes, content_type: String) -> (r: HttpResponse<
        HttpResponseBodyInitialized,
        R,
    >)
        requires
            self.wf(),
        ensures
            r.wf(),
            r@ == with_bytes(self@, octets(bytes), encode_utf8(content_type@)),
    {
        let mut m = self;
        let len: usize = bytes_as_slice(&bytes).len();
        m.field_lines.set("content-type", content_type.as_str());
        m.field_lines.set("content-length", number_text(len as u64).as_str());
        m.into_initialized(Some(Payload::Bytes(Body::from_bytes(&bytes, Some(content_type)))))
    }

    /// Answers with what a reader yields.
    pub fn stream(self, reader: R, content_len: u64, content_type: String) -> (r: HttpResponse<
        HttpResponseBodyInitialized,
        R,
    >)
        requires
            self.wf(),
        ensures
            r.wf(),
            r@ == (ResponseModel {
                body: Some(
                    PayloadModel::Stream {
                        reader,
                        content_length: content_len as nat,
                        content_type: Some(encode_utf8(content_type@)),
                    },
                ),
                fields: with_content(
                    self@.fields,
                    encode_utf8(content_type@),
                    content_len as nat,
                ),
                ..self@
            }),
    {
        let mut m = self;
        m.field_lines.set("content-type", content_type.as_str());
        m.field_lines.set("content-length", number_text(content_len).as_str());
        m.into_initialized(
            Some(
                Payload::Stream {
                    reader,
                    content_length: content_len,
                    content_type: Some(content_type),
                },
            ),
        )
    }

    /// Answers without a body.
    pub fn empty(self) -> (r: HttpResponse<HttpResponseBodyInitialized, R>)
        requires
            self.wf(),
        ensures
            r.wf(),
            r@ == (ResponseModel { body: None, ..self@ }),
    {
        self.into_initialized(None)
    }
}

// ── Compression ────────────────────────────────────────────────────────────

/// The value of a header field, or nothing.
pub open spec fn field_or_empty(fields: Seq<Field>, name: Seq<u8>) -> Seq<u8> {
    match field_value(fields, name) {
        Some(v) => v,
        None => Seq::empty(),
    }
}

/// How a response's body is to be compressed: where its content type shrinks and
/// an encoding is accepted, except for a body of less than 1024 bytes.
pub open spec fn compression_of<R>(m: ResponseModel<R>) -> Option<Encoding> {
    let encoding = chosen_encoding(field_or_empty(m.fields, "accept-encoding".spec_bytes()));
    if !compressible(field_or_empty(m.fields, "content-type".spec_bytes())) {
        None
    } else {
        match m.body {
            None => None,
            Some(PayloadModel::Bytes(c)) => if c.bytes.len() < 1024 {
                None
            } else {
                encoding
            },
            Some(PayloadModel::Stream { reader, content_length, content_type }) => encoding,
        }
    }
}

/// The response with a body that has been compressed to `compressed`, where that
/// is shorter than the body was.
pub open spec fn with_compressed<R>(
    m: ResponseModel<R>,
    encoding: Encoding,
    body: Content,
    compressed: Seq<u8>,
) -> ResponseModel<R> {
    if compressed.len() >= body.bytes.len() {
        ResponseModel { body: Some(PayloadModel::Bytes(body)), ..m }
    } else {
        ResponseModel {
            body: Some(
                PayloadModel::Bytes(
                    Content { bytes: compressed, content_type: body.content_type },
                ),
            ),
            fields: add_field(
                add_field(
                    add_field(m.fields, "content-encoding".spec_bytes(), encoding.name()),
                    "content-length".spec_bytes(),
                    decimal(compressed.len()),
                ),
                "vary".spec_bytes(),
                "Accept-Encoding".spec_bytes(),
            ),
            ..m
        }
    }
}

/// The response with a body that a compressing reader yields in chunks.
pub open spec fn with_compressed_stream<R>(
    m: ResponseModel<R>,
    encoding: Encoding,
    reader: R,
    content_type: Option<Seq<u8>>,
) -> ResponseModel<R> {
    ResponseModel {
        body: Some(PayloadModel::Stream { reader, content_length: 0, content_type }),
        fields: add_field(
            add_field(
                add_field(
                    drop_field(m.fields, "content-length".spec_bytes()),
                    "transfer-encoding".spec_bytes(),
                    "chunked".spec_bytes(),
                ),
                "content-encoding".spec_bytes(),
                encoding.name(),
            ),
            "vary".spec_bytes(),
            "Accept-Encoding".spec_bytes(),
        ),
        ..m
    }
}

impl<R> HttpResponse<HttpResponseBodyInitialized, R> {
    /// How the body is to be compressed, if at all.
    pub fn compression(&self) -> (r: Option<Encoding>)
        requires
            self.wf(),
        ensures
            r == compression_of(self@),
    {
        proof {
            reveal_strlit("");
            assert(is_ascii(""));
            assert("".spec_bytes() =~= Seq::<u8>::empty());
        }
        let body = match &self.body {
            Some(b) => b,
            None => return None,
        };
        let content_type: &str = match self.field_lines.get("content-type") {
            Some(v) => v,
            None => "",
        };
        if !Compress::is_compressible(content_type) {
            return None;
        }
        let accepted: &str = match self.field_lines.get("accept-encoding") {
            Some(v) => v,
            None => "",
        };
        let encoding = Compress::choose_encoding(accepted);
        match body {
            Payload::Bytes(b) => if bytes_as_slice(&b.to_bytes()).len() < 1024 {
                None
            } else {
                encoding
            },
            Payload::Stream { .. } => encoding,
        }
    }

    /// Takes the body out.
    pub fn take_body(&mut self) -> (r: Option<Payload<R>>)
        requires
            old(self).wf(),
        ensures
            final(self).wf(),
            final(self)@ == (ResponseModel { body: None, ..old(self)@ }),
            match r {
                Some(p) => old(self)@.body == Some(p@),
                None => old(self)@.body is None,
            },
    {
        let r = self.body.take();
        r
    }

    /// Puts a body that has been compressed in its place, where that is shorter.
    pub fn put_compressed(self, encoding: Encoding, body: Body, compressed: Vec<u8>) -> (r: Self)
        requires
            self.wf(),
        ensures
            r.wf(),
            r@ == with_compressed(self@, encoding, body@, compressed@),
    {
        let mut m = self;
        if compressed.len() >= bytes_as_slice(&body.to_bytes()).len() {
            m.body = Some(Payload::Bytes(body));
            return m;
        }
        m.field_lines.set("content-encoding", encoding.as_str());
        m.field_lines.set("content-length", number_text(compressed.len() as u64).as_str());
        m.field_lines.set("vary", "Accept-Encoding");
        m.body = Some(Payload::Bytes(body.with_bytes(bytes_from_vec(compressed))));
        m
    }

    /// Puts a compressing reader in the place of the body, which then comes in
    /// chunks.
    pub fn put_compressed_stream(
        self,
        encoding: Encoding,
        reader: R,
        content_type: Option<String>,
    ) -> (r: Self)
        requires
            self.wf(),
        ensures
            r.wf(),
            r@ == with_compressed_stream(
                self@,
                encoding,
                reader,
                optional_text(content_type),
            ),
    {
        let mut m = self;
        m.field_lines.remove("content-length");
        m.field_lines.set("transfer-encoding", "chunked");
        m.field_lines.set("content-encoding", encoding.as_str());
        m.field_lines.set("vary", "Accept-Encoding");
        m.body = Some(Payload::Stream { reader, content_length: 0, content_type });
        m
    }
}

// ── What holds with and without a body ─────────────────────────────────────

impl<State, R> HttpResponse<State, R> {
    /// The header fields and the cookies are well kept.
    pub closed spec fn wf(&self) -> bool {
        &&& self.field_lines.wf()
        &&& self.cookies matches Some(c) ==> c.wf()
    }

    pub fn status_code(self, status_code: HttpStatusCode) -> (r: Self)
        requires
            self.wf(),
        ensures
            r.wf(),
            r@ == (ResponseModel { status: status_code, ..self@ }),
    {
        let mut m = self;
        m.status_code = status_code;
        m
    }

    /// Adds a header field, unless it is reserved.
    pub fn add_header(self, field_name: &str, field_value: &str) -> (r: Self)
        requires
            self.wf(),
        ensures
            r.wf(),
            r@ == with_header(self@, field_name.spec_bytes(), field_value.spec_bytes()),
    {
        let mut m = self;
        if !is_reserved(field_name) {
            m.field_lines.set(field_name, field_value);
        }
        m
    }

    /// Adds a header field.
    pub fn __add_header_internal(self, field_name: &str, field_value: &str) -> (r: Self)
        requires
            self.wf(),
        ensures
            r.wf(),
            r@ == (ResponseModel {
                fields: add_field(
                    self@.fields,
                    field_name.spec_bytes(),
                    field_value.spec_bytes(),
                ),
                ..self@
            }),
    {
        let mut m = self;
        m.field_lines.set(field_name, field_value);
        m
    }

    /// Takes a header field out, unless it is reserved.
    pub fn remove_header(self, field_name: &str) -> (r: Self)
        requires
            self.wf(),
        ensures
            r.wf(),
            r@ == without_header(self@, field_name.spec_bytes()),
    {
        let mut m = self;
        if !is_reserved(field_name) {
            m.field_lines.remove(field_name);
        }
        m
    }

    /// Takes a header field out.
    pub fn __remove_header_internal(self, field_name: &str) -> (r: Self)
        requires
            self.wf(),
        ensures
            r.wf(),
            r@ == (ResponseModel {
                fields: drop_field(self@.fields, field_name.spec_bytes()),
                ..self@
            }),
    {
        let mut m = self;
        m.field_lines.remove(field_name);
        m
    }

    /// Sets a cookie.
    pub fn add_cookie(
        self,
        cookie_name: &str,
        cookie_value: &str,
        options: Option<CookieOptions>,
    ) -> (r: Self)
        requires
            self.wf(),
        ensures
            r.wf(),
            r@ == with_cookie(
                self@,
                NamedCookie {
                    name: encode_utf8(stripped(cookie_name@)),
                    value: cookie_value.spec_bytes(),
                    attributes: optional_attributes(options),
                },
            ),
    {
        let mut m = self;
        let mut store = match m.cookies {
            Some(c) => c,
            None => CookieStore::new(),
        };
        store.set(cookie_name, cookie_value, options);
        m.cookies = Some(store);
        m
    }

    /// Takes a cookie out again.
    pub fn remove_cookie(self, cookie_name: &str) -> (r: Self)
        requires
            self.wf(),
        ensures
            r.wf(),
            r@ == without_cookie(self@, cookie_name.spec_bytes()),
    {
        let mut m = self;
        if let Some(c) = &mut m.cookies {
            c.remove(cookie_name);
        }
        m
    }

    /// Keeps the body from being sent.
    pub fn suppress_body(self) -> (r: Self)
        requires
            self.wf(),
        ensures
            r.wf(),
            r@ == (ResponseModel { suppressed: true, ..self@ }),
    {
        let mut m = self;
        m.suppress_body = true;
        m
    }

    pub fn http_version(&self) -> (r: &Bytes)
        ensures
            octets(*r) == self@.version,
    {
        &self.http_version
    }

    pub fn status(&self) -> (r: HttpStatusCode)
        ensures
            r == self@.status,
    {
        self.status_code
    }

    pub fn has_body(&self) -> (r: bool)
        ensures
            r == (self@.body is Some),
    {
        self.body.is_some()
    }

    pub fn fields(&self) -> (r: &FieldLines)
        requires
            self.wf(),
        ensures
            r.wf(),
            r@ == self@.fields,
    {
        &self.field_lines
    }

    pub fn cookies(&self) -> (r: Option<&CookieStore>)
        ensures
            match r {
                Some(c) => self@.cookies == Some(c@),
                None => self@.cookies is None,
            },
    {
        self.cookies.as_ref()
    }

    pub fn is_suppressed(&self) -> (r: bool)
        ensures
            r == self@.suppressed,
    {
        self.suppress_body
    }
}

// ── Handles ────────────────────────────────────────────────────────────────

/// A response without a body, and the connection that it goes out on.
pub struct HttpResponseInit<C, R> {
    pub connection: C,
    pub response: HttpResponse<HttpResponseBodyUnInitialized, R>,
}

impl<C, R> HttpResponseInit<C, R> {
    pub fn status_code(self, code: HttpStatusCode) -> (r: Self)
        requires
            self.response.wf(),
        ensures
            r.response.wf(),
            r.connection == self.connection,
            r.response@ == (ResponseModel { status: code, ..self.response@ }),
    {
        HttpResponseInit {
            connection: self.connection,
            response: self.response.status_code(code),
        }
    }

    /// Adds a header field, unless it is reserved.
    pub fn add_header(self, k: &str, v: &str) -> (r: Self)
        requires
            self.response.wf(),
        ensures
            r.response.wf(),
            r.connection == self.connection,
            r.response@ == with_header(self.response@, k.spec_bytes(), v.spec_bytes()),
    {
        HttpResponseInit {
            connection: self.connection,
            response: self.response.add_header(k, v),
        }
    }

    /// Adds a header field.
    pub fn __add_header_internal(self, k: &str, v: &str) -> (r: Self)
        requires
            self.response.wf(),
        ensures
            r.response.wf(),
            r.connection == self.connection,
            r.response@ == (ResponseModel {
                fields: add_field(self.response@.fields, k.spec_bytes(), v.spec_bytes()),
                ..self.response@
            }),
    {
        HttpResponseInit {
            connection: self.connection,
            response: self.response.__add_header_internal(k, v),
        }
    }

    /// Takes a header field out, unless it is reserved.
    pub fn remove_header(self, name: &str) -> (r: Self)
        requires
            self.response.wf(),
        ensures
            r.response.wf(),
            r.connection == self.connection,
            r.response@ == without_header(self.response@, name.spec_bytes()),
    {
        HttpResponseInit {
            connection: self.connection,
            response: self.response.remove_header(name),
        }
    }

    /// Takes a header field out.
    pub fn __remove_header_internal(self, name: &str) -> (r: Self)
        requires
            self.response.wf(),
        ensures
            r.response.wf(),
            r.connection == self.connection,
            r.response@ == (ResponseModel {
                fields: drop_field(self.response@.fields, name.spec_bytes()),
                ..self.response@
            }),
    {
        HttpResponseInit {
            connection: self.connection,
            response: self.response.__remove_header_internal(name),
        }
    }

    /// Sets a cookie.
    pub fn add_cookie(self, name: &str, value: &str, opts: Option<CookieOptions>) -> (r: Self)
        requires
            self.response.wf(),
        ensures
            r.response.wf(),
            r.connection == self.connection,
            r.response@ == with_cookie(
                self.response@,
                NamedCookie {
                    name: encode_utf8(stripped(name@)),
                    value: value.spec_bytes(),
                    attributes: optional_attributes(opts),
                },
            ),
    {
        HttpResponseInit {
            connection: self.connection,
            response: self.response.add_cookie(name, value, opts),
        }
    }

    /// Takes a cookie out again.
    pub fn remove_cookie(self, name: &str) -> (r: Self)
        requires
            self.response.wf(),
        ensures
            r.response.wf(),
            r.connection == self.connection,
            r.response@ == without_cookie(self.response@, name.spec_bytes()),
    {
        HttpResponseInit {
            connection: self.connection,
            response: self.response.remove_cookie(name),
        }
    }

    /// Answers with a JSON value.
    pub fn json(self, value: &serde_json::Value) -> (r: HttpResponseReady<C, R>)
        requires
            self.response.wf(),
        ensures
            r.response.wf(),
            r.connection == self.connection,
            r.response@ == with_bytes(
                self.response@,
                json_text(*value),
                "application/json".spec_bytes(),
            ),
    {
        HttpResponseReady { connection: self.connection, response: self.response.json(value) }
    }

    /// Answers with a JSON text.
    pub fn json_encoded(self, text: Bytes) -> (r: HttpResponseReady<C, R>)
        requires
            self.response.wf(),
        ensures
            r.response.wf(),
            r.connection == self.connection,
            r.response@ == with_bytes(
                self.response@,
                octets(text),
                "application/json".spec_bytes(),
            ),
    {
        HttpResponseReady {
            connection: self.connection,
            response: self.response.json_encoded(text),
        }
    }

    /// Answers with bytes.
    pub fn bytes(self, b: Bytes, ct: String) -> (r: HttpResponseReady<C, R>)
        requires
            self.response.wf(),
        ensures
            r.response.wf(),
            r.connection == self.connection,
            r.response@ == with_bytes(self.response@, octets(b), encode_utf8(ct@)),
    {
        HttpResponseReady { connection: self.connection, response: self.response.bytes(b, ct) }
    }

    /// Answers with what a reader yields.
    pub fn stream(self, reader: R, len: u64, ct: String) -> (r: HttpResponseReady<C, R>)
        requires
            self.response.wf(),
        ensures
            r.response.wf(),
            r.connection == self.connection,
            r.response@ == (ResponseModel {
                body: Some(
                    PayloadModel::Stream {
                        reader,
                        content_length: len as nat,
                        content_type: Some(encode_utf8(ct@)),
                    },
                ),
                fields: with_content(self.response@.fields, encode_utf8(ct@), len as nat),
                ..self.response@
            }),
    {
        HttpResponseReady {
            connection: self.connection,
            response: self.response.stream(reader, len, ct),
        }
    }

    /// Answers without a body.
    pub fn empty(self) -> (r: HttpResponseReady<C, R>)
        requires
            self.response.wf(),
        ensures
            r.response.wf(),
            r.connection == self.connection,
            r.response@ == (ResponseModel { body: None, ..self.response@ }),
    {
        HttpResponseReady { connection: self.connection, response: self.response.empty() }
    }
}

/// A response that is ready to be sent, and the connection that it goes out on.
pub struct HttpResponseReady<C, R> {
    pub connection: C,
    pub response: HttpResponse<HttpResponseBodyInitialized, R>,
}

impl<C, R> HttpResponseReady<C, R> {
    pub fn status_code(self, code: HttpStatusCode) -> (r: Self)
        requires
            self.response.wf(),
        ensures
            r.response.wf(),
            r.connection == self.connection,
            r.response@ == (ResponseModel { status: code, ..self.response@ }),
    {
        HttpResponseReady {
            connection: self.connection,
            response: self.response.status_code(code),
        }
    }

    /// Adds a header field, unless it is reserved.
    pub fn add_header(self, k: &str, v: &str) -> (r: Self)
        requires
            self.response.wf(),
        ensures
            r.response.wf(),
            r.connection == self.connection,
            r.response@ == with_header(self.response@, k.spec_bytes(), v.spec_bytes()),
    {
        HttpResponseReady {
            connection: self.connection,
            response: self.response.add_header(k, v),
        }
    }
}

// ── Laws ───────────────────────────────────────────────────────────────────

/// A handler neither sets, changes nor takes out a reserved header field.
pub proof fn law_reserved_kept<R>(
    m: ResponseModel<R>,
    name: Seq<u8>,
    value: Seq<u8>,
    kept: Seq<u8>,
)
    requires
        well_kept(m.fields),
        reserved(kept),
    ensures
        field_value(with_header(m, name, value).fields, kept) == field_value(m.fields, kept),
        field_value(without_header(m, name).fields, kept) == field_value(m.fields, kept),
{
    law_added_field(m.fields, name, value, kept);
    law_dropped_field(m.fields, name, kept);
}

/// A response with a body in memory says how long the body is and of what type,
/// where nothing was said of it before.
pub proof fn law_content_described<R>(m: ResponseModel<R>, bytes: Seq<u8>, content_type: Seq<u8>)
    requires
        field_value(m.fields, "content-length".spec_bytes()) is None,
        field_value(m.fields, "content-type".spec_bytes()) is None,
    ensures
        field_value(with_bytes(m, bytes, content_type).fields, "content-length".spec_bytes())
            == Some(decimal(bytes.len())),
        field_value(with_bytes(m, bytes, content_type).fields, "content-type".spec_bytes()) == Some(
            content_type,
        ),
{
    let len = "content-length".spec_bytes();
    let kind = "content-type".spec_bytes();
    reveal_strlit("content-length");
    reveal_strlit("content-type");
    assert(is_ascii("content-length") && is_ascii("content-type"));
    assert(lower_all(len).len() != lower_all(kind).len());
    let typed = add_field(m.fields, kind, content_type);
    law_added_field(m.fields, kind, content_type, len);
    law_added_field(typed, len, decimal(bytes.len()), kind);
}

/// Compression never makes a body longer.
pub proof fn law_compression_shrinks<R>(
    m: ResponseModel<R>,
    encoding: Encoding,
    body: Content,
    compressed: Seq<u8>,
)
    ensures
        with_compressed(m, encoding, body, compressed).body matches Some(PayloadModel::Bytes(c))
            && c.bytes.len() <= body.bytes.len() && c.content_type == body.content_type,
{
}

impl<State, R> HttpResponse<State, R> {
    /// The header fields of a response are always well kept, and no cookie occurs
    /// twice.
    pub proof fn law_well_kept(&self)
        requires
            self.wf(),
        ensures
            well_kept(self@.fields),
            self@.cookies matches Some(c) ==> names_distinct(c),
    {
        self.field_lines.law_well_kept();
    }
}

/// The number of each status, and the status line's text: the number's digits, a
/// space and a reason.
#[verifier::spinoff_prover]
pub proof fn law_status_text(s: HttpStatusCode)
    ensures
        s.text().len() > 4,
        s.text().take(4) == decimal(s.number() as nat) + seq![32u8],
        200 <= s.number() <= 299 <==> s is OK || s is Created || s is Accepted || s is NoContent
            || s is PartialContent,
        300 <= s.number() <= 399 <==> s is NotModified,
        500 <= s.number() <= 599 <==> s is InternalServerError || s is NotImplemented
            || s is BadGateWay || s is ServiceUnavailable,
        s.number() < 600,
{
    reveal_strlit("200 OK");
    reveal_strlit("201 Created");
    reveal_strlit("202 Accepted");
    reveal_strlit("204 No Content");
    reveal_strlit("206 Partial Content");
    reveal_strlit("304 Not Modified");
    reveal_strlit("400 Bad Request");
    reveal_strlit("401 Unauthorized");
    reveal_strlit("403 Forbidden");
    reveal_strlit("404 Not Found");
    reveal_strlit("405 Method Not Allowed");
    reveal_strlit("408 Request Timeout");
    reveal_strlit("413 Content Too Large");
    reveal_strlit("414 URI Too Long");
    reveal_strlit("431 Request Header Fields Too Large");
    reveal_strlit("500 Internal Server Error");
    reveal_strlit("501 Not Implemented");
    reveal_strlit("502 Bad Gateway");
    reveal_strlit("503 Service Unavailable");
    assert(is_ascii("200 OK") && is_ascii("201 Created") && is_ascii("202 Accepted") && is_ascii(
        "204 No Content",
    ) && is_ascii("206 Partial Content") && is_ascii("304 Not Modified") && is_ascii(
        "400 Bad Request",
    ) && is_ascii("401 Unauthorized") && is_ascii("403 Forbidden") && is_ascii("404 Not Found"));
    assert(is_ascii("405 Method Not Allowed") && is_ascii("408 Request Timeout") && is_ascii(
        "413 Content Too Large",
    ) && is_ascii("414 URI Too Long") && is_ascii("431 Request Header Fields Too Large")
        && is_ascii("500 Internal Server Error") && is_ascii("501 Not Implemented") && is_ascii(
        "502 Bad Gateway",
    ) && is_ascii("503 Service Unavailable"));
    let n = s.number() as nat;
    lemma_three_digits(n);
    assert(s.text().take(4) =~= decimal(n) + seq![32u8]);
}

proof fn lemma_three_digits(n: nat)
    requires
        100 <= n <= 999,
    ensures
        decimal(n) == seq![
            (48 + n / 100) as u8,
            (48 + n / 10 % 10) as u8,
            (48 + n % 10) as u8,
        ],
{
    assert(n / 10 / 10 == n / 100);
    let high = decimal(n / 100);
    assert(high =~= seq![(48 + n / 100) as u8]);
    let two = decimal(n / 10);
    assert(two == high.push((48 + n / 10 % 10) as u8));
    assert(decimal(n) == two.push((48 + n % 10) as u8));
    assert(decimal(n) =~= seq![
        (48 + n / 100) as u8,
        (48 + n / 10 % 10) as u8,
        (48 + n % 10) as u8,
    ]);
}

/// Two statuses with the same number are the same.
pub proof fn law_numbers_differ(a: HttpStatusCode, b: HttpStatusCode)
    requires
        a.number() == b.number(),
    ensures
        a == b,
{
}

/// The names of the header fields that only the server itself sets.
pub open spec fn reserved_names() -> Seq<Seq<u8>> {
    seq![
        "content-type".spec_bytes(),
        "content-length".spec_bytes(),
        "content-range".spec_bytes(),
        "accept-ranges".spec_bytes(),
        "accept-encoding".spec_bytes(),
        "x-request-id".spec_bytes(),
        "access-control-allow-origin".spec_bytes(),
        "access-control-allow-credentials".spec_bytes(),
        "access-control-allow-methods".spec_bytes(),
        "access-control-request-headers".spec_bytes(),
        "access-control-max-age".spec_bytes(),
        "access-control-expose-headers".spec_bytes(),
        "cookie".spec_bytes(),
        "set-cookie".spec_bytes(),
        "date".spec_bytes(),
        "connection".spec_bytes(),
        "keep-alive".spec_bytes(),
    ]
}

/// A name is reserved exactly where it is one of the reserved names, in any case.
pub proof fn law_reserved_names(name: Seq<u8>)
    ensures
        reserved(name) <==> exists|i: int|
            0 <= i < reserved_names().len() && same_ignoring_case(
                name,
                #[trigger] reserved_names()[i],
            ),
{
    let names = reserved_names();
    assert(names.len() == 17);
    if reserved(name) {
        assert(same_ignoring_case(name, names[0]) || same_ignoring_case(name, names[1])
            || same_ignoring_case(name, names[2]) || same_ignoring_case(name, names[3])
            || same_ignoring_case(name, names[4]) || same_ignoring_case(name, names[5])
            || same_ignoring_case(name, names[6]) || same_ignoring_case(name, names[7])
            || same_ignoring_case(name, names[8]) || same_ignoring_case(name, names[9])
            || same_ignoring_case(name, names[10]) || same_ignoring_case(name, names[11])
            || same_ignoring_case(name, names[12]) || same_ignoring_case(name, names[13])
            || same_ignoring_case(name, names[14]) || same_ignoring_case(name, names[15])
            || same_ignoring_case(name, names[16]));
    }
}

/// `allow` is not reserved.
pub proof fn lemma_allow_not_reserved()
    ensures
        !reserved("allow".spec_bytes()),
{
    reveal_strlit("allow");
    reveal_strlit("content-type");
    reveal_strlit("content-length");
    reveal_strlit("content-range");
    reveal_strlit("accept-ranges");
    reveal_strlit("accept-encoding");
    reveal_strlit("x-request-id");
    reveal_strlit("access-control-allow-origin");
    reveal_strlit("access-control-allow-credentials");
    reveal_strlit("access-control-allow-methods");
    reveal_strlit("access-control-request-headers");
    reveal_strlit("access-control-max-age");
    reveal_strlit("access-control-expose-headers");
    reveal_strlit("cookie");
    reveal_strlit("set-cookie");
    reveal_strlit("date");
    reveal_strlit("connection");
    reveal_strlit("keep-alive");
    assert(is_ascii("allow") && is_ascii("content-type") && is_ascii("content-length") && is_ascii(
        "content-range",
    ) && is_ascii("accept-ranges") && is_ascii("accept-encoding") && is_ascii("x-request-id"));
    assert(is_ascii("access-control-allow-origin") && is_ascii("access-control-allow-credentials")
        && is_ascii("access-control-allow-methods") && is_ascii("access-control-request-headers")
        && is_ascii("access-control-max-age") && is_ascii("access-control-expose-headers"));
    assert(is_ascii("cookie") && is_ascii("set-cookie") && is_ascii("date") && is_ascii(
        "connection",
    ) && is_ascii("keep-alive"));
    let allow = "allow".spec_bytes();
    let names = reserved_names();
    assert(allow.len() == 5);
    law_reserved_names(allow);
    assert forall|i: int| 0 <= i < names.len() implies !same_ignoring_case(
        allow,
        #[trigger] names[i],
    ) by {
        assert(names[i].len() != 5);
        law_same_ignoring_case(allow, names[i]);
    }
}

/// A header field that is not reserved is added to a response, behind the value
/// that it had, and taken out of it; nothing else of the response changes.
pub proof fn law_own_header<R>(m: ResponseModel<R>, name: Seq<u8>, value: Seq<u8>, other: Seq<u8>)
    requires
        well_kept(m.fields),
        !reserved(name),
    ensures
        ({
            let added = with_header(m, name, value);
            let left = without_header(m, name);
            &&& field_value(added.fields, name) == Some(
                match field_value(m.fields, name) {
                    Some(v) => v + ", ".spec_bytes() + value,
                    None => value,
                },
            )
            &&& field_value(left.fields, name) is None
            &&& !same_ignoring_case(name, other) ==> field_value(added.fields, other)
                == field_value(m.fields, other) && field_value(left.fields, other) == field_value(
                m.fields,
                other,
            )
            &&& added == ResponseModel { fields: added.fields, ..m }
            &&& left == ResponseModel { fields: left.fields, ..m }
        }),
{
    law_added_field(m.fields, name, value, other);
    law_dropped_field(m.fields, name, other);
}

/// A response that is given bytes has those bytes of that type as its body, and
/// besides them only its content type and length change.
pub proof fn law_bytes_kept<R>(
    m: ResponseModel<R>,
    bytes: Seq<u8>,
    content_type: Seq<u8>,
    other: Seq<u8>,
)
    ensures
        ({
            let after = with_bytes(m, bytes, content_type);
            &&& after.body == Some(
                PayloadModel::<R>::Bytes(Content { bytes, content_type: Some(content_type) }),
            )
            &&& after == ResponseModel { body: after.body, fields: after.fields, ..m }
            &&& !same_ignoring_case("content-type".spec_bytes(), other) && !same_ignoring_case(
                "content-length".spec_bytes(),
                other,
            ) ==> field_value(after.fields, other) == field_value(m.fields, other)
        }),
{
    let typed = add_field(m.fields, "content-type".spec_bytes(), content_type);
    law_added_field(m.fields, "content-type".spec_bytes(), content_type, other);
    law_added_field(typed, "content-length".spec_bytes(), decimal(bytes.len()), other);
}

/// A body is compressed exactly where there is one, it is a stream or has at least
/// 1024 bytes, its content type shrinks and an encoding is accepted; then by the
/// one that is taken of those accepted.
pub proof fn law_compression<R>(m: ResponseModel<R>)
    ensures
        ({
            let kind = match field_value(m.fields, "content-type".spec_bytes()) {
                Some(v) => v,
                None => Seq::empty(),
            };
            let accepted = match field_value(m.fields, "accept-encoding".spec_bytes()) {
                Some(v) => v,
                None => Seq::empty(),
            };
            let worth = match m.body {
                None => false,
                Some(PayloadModel::Bytes(c)) => c.bytes.len() >= 1024,
                Some(_) => true,
            };
            &&& worth && compressible(kind) ==> compression_of(m) == chosen_encoding(accepted)
            &&& !worth || !compressible(kind) ==> compression_of(m) is None
        }),
{
}

proof fn lemma_coding_names()
    ensures
        ({
            let e = "content-encoding".spec_bytes();
            let l = "content-length".spec_bytes();
            let t = "transfer-encoding".spec_bytes();
            let v = "vary".spec_bytes();
            &&& !same_ignoring_case(e, l) && !same_ignoring_case(l, e)
            &&& !same_ignoring_case(e, t) && !same_ignoring_case(t, e)
            &&& !same_ignoring_case(e, v) && !same_ignoring_case(v, e)
            &&& !same_ignoring_case(l, t) && !same_ignoring_case(t, l)
            &&& !same_ignoring_case(l, v) && !same_ignoring_case(v, l)
            &&& !same_ignoring_case(t, v) && !same_ignoring_case(v, t)
        }),
{
    reveal_strlit("content-encoding");
    reveal_strlit("content-length");
    reveal_strlit("transfer-encoding");
    reveal_strlit("vary");
    assert(is_ascii("content-encoding") && is_ascii("content-length") && is_ascii(
        "transfer-encoding",
    ) && is_ascii("vary"));
    let e = lower_all("content-encoding".spec_bytes());
    let l = lower_all("content-length".spec_bytes());
    let t = lower_all("transfer-encoding".spec_bytes());
    let v = lower_all("vary".spec_bytes());
    assert(e.len() == 16 && l.len() == 14 && t.len() == 17 && v.len() == 4);
}

/// A body that compression makes shorter is replaced by what it was compressed to,
/// and the response says by which encoding, how long that is and that the answer
/// depends on the accepted encodings; a body that it does not make shorter is kept
/// and nothing is said. Nothing else of the response changes.
#[verifier::spinoff_prover]
pub proof fn law_compressed<R>(
    m: ResponseModel<R>,
    encoding: Encoding,
    body: Content,
    compressed: Seq<u8>,
    other: Seq<u8>,
)
    ensures
        ({
            let after = with_compressed(m, encoding, body, compressed);
            let extended = |name: Seq<u8>, value: Seq<u8>|
                match field_value(m.fields, name) {
                    Some(v) => Some(v + ", ".spec_bytes() + value),
                    None => Some(value),
                };
            &&& after == ResponseModel { body: after.body, fields: after.fields, ..m }
            &&& compressed.len() >= body.bytes.len() ==> after.fields == m.fields && after.body
                == Some(PayloadModel::<R>::Bytes(body))
            &&& compressed.len() < body.bytes.len() ==> {
                &&& after.body == Some(
                    PayloadModel::<R>::Bytes(
                        Content { bytes: compressed, content_type: body.content_type },
                    ),
                )
                &&& field_value(after.fields, "content-encoding".spec_bytes()) == extended(
                    "content-encoding".spec_bytes(),
                    encoding.name(),
                )
                &&& field_value(after.fields, "content-length".spec_bytes()) == extended(
                    "content-length".spec_bytes(),
                    decimal(compressed.len()),
                )
                &&& field_value(after.fields, "vary".spec_bytes()) == extended(
                    "vary".spec_bytes(),
                    "Accept-Encoding".spec_bytes(),
                )
                &&& !same_ignoring_case("content-encoding".spec_bytes(), other)
                    && !same_ignoring_case("content-length".spec_bytes(), other)
                    && !same_ignoring_case("vary".spec_bytes(), other) ==> field_value(
                    after.fields,
                    other,
                ) == field_value(m.fields, other)
            }
        }),
{
    lemma_coding_names();
    let e = "content-encoding".spec_bytes();
    let l = "content-length".spec_bytes();
    let v = "vary".spec_bytes();
    let len = decimal(compressed.len());
    let word = "Accept-Encoding".spec_bytes();
    let a = add_field(m.fields, e, encoding.name());
    let b = add_field(a, l, len);
    law_added_field(m.fields, e, encoding.name(), l);
    law_added_field(m.fields, e, encoding.name(), v);
    law_added_field(m.fields, e, encoding.name(), other);
    law_added_field(a, l, len, e);
    law_added_field(a, l, len, v);
    law_added_field(a, l, len, other);
    law_added_field(b, v, word, e);
    law_added_field(b, v, word, l);
    law_added_field(b, v, word, other);
}

/// A stream that is compressed is sent in chunks: the response no longer says how
/// long it is, and says that it comes in chunks, by which encoding and that the
/// answer depends on the accepted encodings. Nothing else of it changes.
#[verifier::spinoff_prover]
pub proof fn law_compressed_stream<R>(
    m: ResponseModel<R>,
    encoding: Encoding,
    reader: R,
    content_type: Option<Seq<u8>>,
    other: Seq<u8>,
)
    requires
        well_kept(m.fields),
    ensures
        ({
            let after = with_compressed_stream(m, encoding, reader, content_type);
            let extended = |name: Seq<u8>, value: Seq<u8>|
                match field_value(m.fields, name) {
                    Some(v) => Some(v + ", ".spec_bytes() + value),
                    None => Some(value),
                };
            &&& after == ResponseModel { body: after.body, fields: after.fields, ..m }
            &&& after.body == Some(
                PayloadModel::Stream { reader, content_length: 0, content_type },
            )
            &&& field_value(after.fields, "content-length".spec_bytes()) is None
            &&& field_value(after.fields, "transfer-encoding".spec_bytes()) == extended(
                "transfer-encoding".spec_bytes(),
                "chunked".spec_bytes(),
            )
            &&& field_value(after.fields, "content-encoding".spec_bytes()) == extended(
                "content-encoding".spec_bytes(),
                encoding.name(),
            )
            &&& field_value(after.fields, "vary".spec_bytes()) == extended(
                "vary".spec_bytes(),
                "Accept-Encoding".spec_bytes(),
            )
            &&& !same_ignoring_case("content-length".spec_bytes(), other) && !same_ignoring_case(
                "transfer-encoding".spec_bytes(),
                other,
            ) && !same_ignoring_case("content-encoding".spec_bytes(), other)
                && !same_ignoring_case("vary".spec_bytes(), other) ==> field_value(
                after.fields,
                other,
            ) == field_value(m.fields, other)
        }),
{
    lemma_coding_names();
    let e = "content-encoding".spec_bytes();
    let l = "content-length".spec_bytes();
    let t = "transfer-encoding".spec_bytes();
    let v = "vary".spec_bytes();
    let pieces = "chunked".spec_bytes();
    let word = "Accept-Encoding".spec_bytes();
    let a = drop_field(m.fields, l);
    let b = add_field(a, t, pieces);
    let c = add_field(b, e, encoding.name());
    law_dropped_field(m.fields, l, t);
    law_dropped_field(m.fields, l, e);
    law_dropped_field(m.fields, l, v);
    law_dropped_field(m.fields, l, other);
    law_added_field(a, t, pieces, l);
    law_added_field(a, t, pieces, e);
    law_added_field(a, t, pieces, v);
    law_added_field(a, t, pieces, other);
    law_added_field(b, e, encoding.name(), l);
    law_added_field(b, e, encoding.name(), t);
    law_added_field(b, e, encoding.name(), v);
    law_added_field(b, e, encoding.name(), other);
    law_added_field(c, v, word, l);
    law_added_field(c, v, word, t);
    law_added_field(c, v, word, e);
    law_added_field(c, v, word, other);
}

/// The status line of each status names it in the words of the HTTP standard.
pub proof fn law_status_words(s: HttpStatusCode)
    ensures
        s is OK ==> s.text() == "200 OK".spec_bytes(),
        s is Created ==> s.text() == "201 Created".spec_bytes(),
        s is Accepted ==> s.text() == "202 Accepted".spec_bytes(),
        s is NoContent ==> s.text() == "204 No Content".spec_bytes(),
        s is PartialContent ==> s.text() == "206 Partial Content".spec_bytes(),
        s is NotModified ==> s.text() == "304 Not Modified".spec_bytes(),
        s is BadRequest ==> s.text() == "400 Bad Request".spec_bytes(),
        s is Unauthorized ==> s.text() == "401 Unauthorized".spec_bytes(),
        s is Forbidden ==> s.text() == "403 Forbidden".spec_bytes(),
        s is NotFound ==> s.text() == "404 Not Found".spec_bytes(),
        s is MethodNotAllowed ==> s.text() == "405 Method Not Allowed".spec_bytes(),
        s is RequestTimeout ==> s.text() == "408 Request Timeout".spec_bytes(),
        s is ContentTooLarge ==> s.text() == "413 Content Too Large".spec_bytes(),
        s is UriTooLong ==> s.text() == "414 URI Too Long".spec_bytes(),
        s is RequestHeaderFieldsTooLarge ==> s.text()
            == "431 Request Header Fields Too Large".spec_bytes(),
        s is InternalServerError ==> s.text() == "500 Internal Server Error".spec_bytes(),
        s is NotImplemented ==> s.text() == "501 Not Implemented".spec_bytes(),
        s is BadGateWay ==> s.text() == "502 Bad Gateway".spec_bytes(),
        s is ServiceUnavailable ==> s.text() == "503 Service Unavailable".spec_bytes(),
{
}

/// A cookie that a response is given is among its cookies under its name, with its
/// value; one that is taken out is not; the other cookies stay, and so does
/// everything else of the response.
pub proof fn law_response_cookies<R>(m: ResponseModel<R>, cookie: NamedCookie, other: Seq<u8>)
    requires
        m.cookies matches Some(c) ==> names_distinct(c),
    ensures
        ({
            let before = match m.cookies {
                Some(c) => c,
                None => Seq::empty(),
            };
            let with = with_cookie(m, cookie);
            let without = without_cookie(m, cookie.name);
            &&& with == ResponseModel { cookies: with.cookies, ..m }
            &&& without == ResponseModel { cookies: without.cookies, ..m }
            &&& with.cookies matches Some(c) && c.contains(cookie) && cookie_value(c, cookie.name)
                == Some(cookie.value) && (other != cookie.name ==> cookie_value(c, other)
                == cookie_value(before, other))
            &&& without.cookies is Some <==> m.cookies is Some
            &&& without.cookies matches Some(c) ==> cookie_value(c, cookie.name) is None && (other
                != cookie.name ==> cookie_value(c, other) == cookie_value(before, other))
        }),
{
    let before = match m.cookies {
        Some(c) => c,
        None => Seq::empty(),
    };
    law_set_cookie(before, cookie, other);
    law_dropped_cookie(before, cookie.name, other);
    lemma_cookie_index(before, cookie.name);
    let i = cookie_index(before, cookie.name);
    assert(put_cookie(before, cookie)[i] == cookie);
}

/// What a response carries is what it was given: the body itself, or the reader with
/// the length and the content type that it was given with.
pub proof fn law_payload<R>(p: Payload<R>)
    ensures
        p matches Payload::Bytes(b) ==> p@ == PayloadModel::<R>::Bytes(b@),
        p matches Payload::Stream { reader, content_length, content_type } ==> (
        p@ matches PayloadModel::Stream { reader: r, content_length: n, content_type: t } && r
            == reader && n == content_length && (content_type matches Some(s) ==> t == Some(
            encode_utf8(s@),
        )) && (content_type is None ==> t is None)),
{
}

} // verus!

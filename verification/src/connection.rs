//! What goes over a connection.

use crate::cookie_store::{cookie_block, cookies_in_range, NamedCookie};
use crate::date::{law_date_plain, signed_date};
use crate::field_lines::{
    clean, field_block, field_line, field_value, law_fields_read_back, lemma_field_index,
    parse_fields, well_kept, Field, FieldLines,
};
use crate::numbers::{
    all_hex, decimal, format_hex, format_u64, hex_number_in, hex_value, hexadecimal,
    law_hexadecimal_reads_back, lemma_decimal_digits, parse_hex,
};
use crate::outside::{
    bytes_as_slice, bytes_mut_as_slice, bytes_mut_extend, bytes_mut_freeze, bytes_mut_split_to,
    bytes_mut_with_capacity, bytes_slice, chrono_date, occurs_at, octets, octets_mut,
};
use crate::request::{
    chunked, parse_request, HttpRequest, HttpRequestError, PeerAddress, RequestFailure,
    RequestModel,
};
use crate::response::{
    HttpResponse, HttpResponseBodyInitialized, HttpStatusCode, Payload, PayloadModel,
    ResponseModel,
};
use crate::text::{
    contains, contains_bytes, equal_ignoring_case, first_at, first_index, lemma_ascii_valid, lemma_first_at, lemma_first_is, lemma_seven, lower_all,
    same_ignoring_case, starts_with, trim_end, trim_start, trimmed,
};
use bytes::{Bytes, BytesMut};
use vstd::prelude::*;
use vstd::slice::slice_subrange;
use vstd::string::{is_ascii, StringSliceAdditionalSpecFns};
use vstd::utf8::*;

verus! {

// ── The date header ────────────────────────────────────────────────────────

/// The date as it was last written, and the second in which that was.
pub struct DateCache {
    pub secs: u64,
    pub text: Vec<u8>,
}

impl DateCache {
    pub fn new() -> (r: DateCache)
        ensures
            r.secs == 0,
            r.text@ == Seq::<u8>::empty(),
    {
        DateCache { secs: 0, text: Vec::new() }
    }
}

/// The date that is written in the second `now_secs`: the one of the cache in
/// the second of the cache, and otherwise the moment `stamp`.
pub open spec fn date_now(cached_secs: int, cached: Seq<u8>, now_secs: int, stamp: int) -> Seq<u8> {
    if cached_secs == now_secs {
        cached
    } else {
        signed_date(stamp)
    }
}

/// Writes the date header. The date is put together only once a second.
pub fn write_date_header(buf: &mut Vec<u8>, cache: &mut DateCache, now_secs: u64, stamp: u64)
    requires
        stamp <= 8_210_266_876_799,
    ensures
        final(cache).secs == now_secs,
        final(cache).text@ == date_now(
            old(cache).secs as int,
            old(cache).text@,
            now_secs as int,
            stamp as int,
        ),
        final(buf)@ == old(buf)@ + ("date: ".spec_bytes() + final(cache).text@
            + "\r\n".spec_bytes()),
{
    let ghost before = buf@;
    if cache.secs != now_secs {
        let formatted = chrono_date(stamp, "%a, %d %b %Y %H:%M:%S GMT");
        cache.secs = now_secs;
        cache.text.clear();
        cache.text.extend_from_slice(formatted.as_str().as_bytes());
        assert(cache.text@ =~= signed_date(stamp as int));
    }
    buf.extend_from_slice("date: ".as_bytes());
    buf.extend_from_slice(cache.text.as_slice());
    buf.extend_from_slice("\r\n".as_bytes());
    assert(buf@ =~= before + ("date: ".spec_bytes() + cache.text@ + "\r\n".spec_bytes()));
}

// ── Response heads ─────────────────────────────────────────────────────────

/// A status whose responses have no body.
pub open spec fn forbids_body(status: HttpStatusCode) -> bool {
    status == HttpStatusCode::NoContent || status == HttpStatusCode::NotModified
}

/// A header field that the connection itself writes.
pub open spec fn injected(name: Seq<u8>) -> bool {
    same_ignoring_case(name, "date".spec_bytes()) || same_ignoring_case(
        name,
        "connection".spec_bytes(),
    ) || same_ignoring_case(name, "keep-alive".spec_bytes())
}

/// The lines of the header fields, without those that the connection itself
/// writes.
pub open spec fn field_lines_text(fields: Seq<Field>) -> Seq<u8>
    decreases fields.len(),
{
    if fields.len() == 0 {
        Seq::empty()
    } else if injected(fields.last().0) {
        field_lines_text(fields.drop_last())
    } else {
        field_lines_text(fields.drop_last()) + field_line(fields.last())
    }
}

/// The lines that say whether the connection stays open.
pub open spec fn keep_alive_text(keep_alive: bool, timeout_secs: nat) -> Seq<u8> {
    if keep_alive {
        "connection: keep-alive\r\n".spec_bytes() + "keep-alive: timeout=".spec_bytes() + decimal(
            timeout_secs,
        ) + "\r\n".spec_bytes()
    } else {
        "connection: close\r\n".spec_bytes()
    }
}

/// The line that says that nothing follows, where a body could but does not.
pub open spec fn no_content_text<R>(m: ResponseModel<R>) -> Seq<u8> {
    if !forbids_body(m.status) && m.body is None && field_value(
        m.fields,
        "content-length".spec_bytes(),
    ) is None {
        "content-length: 0\r\n".spec_bytes()
    } else {
        Seq::empty()
    }
}

pub open spec fn cookies_text(cookies: Option<Seq<NamedCookie>>, now: int) -> Seq<u8> {
    match cookies {
        Some(c) => cookie_block(c, now),
        None => Seq::empty(),
    }
}

/// The head of a response that is sent at the moment `now`.
pub open spec fn response_head<R>(
    m: ResponseModel<R>,
    keep_alive: bool,
    timeout_secs: nat,
    date: Seq<u8>,
    now: int,
) -> Seq<u8> {
    (m.version + " ".spec_bytes() + m.status.text() + "\r\n".spec_bytes()) + ("date: ".spec_bytes()
        + date + "\r\n".spec_bytes()) + keep_alive_text(keep_alive, timeout_secs)
        + no_content_text(m) + field_lines_text(m.fields) + cookies_text(m.cookies, now)
        + "\r\n".spec_bytes()
}

fn put_status_line<R>(
    buf: &mut Vec<u8>,
    response: &HttpResponse<HttpResponseBodyInitialized, R>,
)
    ensures
        final(buf)@ == old(buf)@ + (response@.version + " ".spec_bytes() + response@.status.text()
            + "\r\n".spec_bytes()),
{
    let ghost before = buf@;
    buf.extend_from_slice(bytes_as_slice(response.http_version()));
    buf.extend_from_slice(" ".as_bytes());
    let status = response.status().to_bytes();
    buf.extend_from_slice(bytes_as_slice(&status));
    buf.extend_from_slice("\r\n".as_bytes());
    assert(buf@ =~= before + (response@.version + " ".spec_bytes() + response@.status.text()
        + "\r\n".spec_bytes()));
}

fn put_keep_alive(buf: &mut Vec<u8>, keep_alive: bool, timeout_secs: u64)
    ensures
        final(buf)@ == old(buf)@ + keep_alive_text(keep_alive, timeout_secs as nat),
{
    let ghost before = buf@;
    if keep_alive {
        buf.extend_from_slice("connection: keep-alive\r\n".as_bytes());
        buf.extend_from_slice("keep-alive: timeout=".as_bytes());
        buf.extend_from_slice(format_u64(timeout_secs).as_slice());
        buf.extend_from_slice("\r\n".as_bytes());
    } else {
        buf.extend_from_slice("connection: close\r\n".as_bytes());
    }
    assert(buf@ =~= before + keep_alive_text(keep_alive, timeout_secs as nat));
}

fn put_no_content<R>(buf: &mut Vec<u8>, response: &HttpResponse<HttpResponseBodyInitialized, R>)
    requires
        response.wf(),
    ensures
        final(buf)@ == old(buf)@ + no_content_text(response@),
{
    let ghost before = buf@;
    if !status_forbids_body(response.status()) && !response.has_body() && response.fields().get(
        "content-length",
    ).is_none() {
        buf.extend_from_slice("content-length: 0\r\n".as_bytes());
    }
    assert(buf@ =~= before + no_content_text(response@));
}

fn put_field_lines(buf: &mut Vec<u8>, fields: &FieldLines)
    requires
        fields.wf(),
    ensures
        final(buf)@ == old(buf)@ + field_lines_text(fields@),
{
    let ghost before = buf@;
    let lines: Vec<(&str, &str)> = fields.iter();
    let n: usize = lines.len();
    for i in 0..n
        invariant
            n == lines@.len(),
            n == fields@.len(),
            forall|i: int|
                0 <= i < lines@.len() ==> (#[trigger] lines@[i]).0.spec_bytes() == fields@[i].0
                    && lines@[i].1.spec_bytes() == fields@[i].1,
            buf@ == before + field_lines_text(fields@.take(i as int)),
    {
        let (name, value): (&str, &str) = lines[i];
        assert(lines@[i as int].0.spec_bytes() == fields@[i as int].0);
        let ghost so_far = buf@;
        assert(fields@.take(i + 1).drop_last() =~= fields@.take(i as int));
        let b = name.as_bytes();
        if !(equal_ignoring_case(b, "date".as_bytes()) || equal_ignoring_case(
            b,
            "connection".as_bytes(),
        ) || equal_ignoring_case(b, "keep-alive".as_bytes())) {
            buf.extend_from_slice(b);
            buf.extend_from_slice(": ".as_bytes());
            buf.extend_from_slice(value.as_bytes());
            buf.extend_from_slice("\r\n".as_bytes());
            assert(buf@ =~= so_far + field_line(fields@[i as int]));
            assert(buf@ =~= before + field_lines_text(fields@.take(i + 1)));
        }
    }
    assert(fields@.take(n as int) =~= fields@);
}

fn put_cookies<R>(
    buf: &mut Vec<u8>,
    response: &HttpResponse<HttpResponseBodyInitialized, R>,
    now: u64,
)
    requires
        response@.cookies matches Some(c) ==> cookies_in_range(c, now as int),
    ensures
        final(buf)@ == old(buf)@ + cookies_text(response@.cookies, now as int),
{
    let ghost before = buf@;
    if let Some(store) = response.cookies() {
        let lines = store.to_bytes(now);
        buf.extend_from_slice(bytes_as_slice(&lines));
    }
    assert(buf@ =~= before + cookies_text(response@.cookies, now as int));
}

fn status_forbids_body(status: HttpStatusCode) -> (r: bool)
    ensures
        r == forbids_body(status),
{
    status == HttpStatusCode::NoContent || status == HttpStatusCode::NotModified
}

// ── Bodies ─────────────────────────────────────────────────────────────────

/// One chunk of a body that comes in chunks.
pub open spec fn chunk(data: Seq<u8>) -> Seq<u8> {
    hexadecimal(data.len()) + "\r\n".spec_bytes() + data + "\r\n".spec_bytes()
}

/// The chunk that ends a body.
pub open spec fn last_chunk() -> Seq<u8> {
    "0\r\n\r\n".spec_bytes()
}

/// One chunk of a body that comes in chunks.
pub fn write_chunk(data: &[u8]) -> (r: Vec<u8>)
    ensures
        r@ == chunk(data@),
{
    let mut r: Vec<u8> = format_hex(data.len());
    r.extend_from_slice(data);
    r.extend_from_slice("\r\n".as_bytes());
    assert(r@ =~= chunk(data@));
    r
}

/// The chunk that ends a body.
pub fn write_terminating_chunk() -> (r: Vec<u8>)
    ensures
        r@ == last_chunk(),
{
    let mut r: Vec<u8> = Vec::new();
    r.extend_from_slice("0\r\n\r\n".as_bytes());
    assert(r@ =~= last_chunk());
    r
}

/// What follows the head of a response.
pub enum OutgoingBody<R> {
    Nothing,
    Whole(Vec<u8>),
    Stream { reader: R, chunked: bool },
}

/// What follows the head of a response.
pub enum OutgoingModel<R> {
    Nothing,
    Whole(Seq<u8>),
    Stream { reader: R, chunked: bool },
}

impl<R> View for OutgoingBody<R> {
    type V = OutgoingModel<R>;

    open spec fn view(&self) -> OutgoingModel<R> {
        match self {
            OutgoingBody::Nothing => OutgoingModel::Nothing,
            OutgoingBody::Whole(b) => OutgoingModel::Whole(b@),
            OutgoingBody::Stream { reader, chunked } => OutgoingModel::Stream {
                reader: *reader,
                chunked: *chunked,
            },
        }
    }
}

/// What follows the head of a response: nothing where the body is suppressed or
/// the status forbids it, and otherwise the body, in chunks where the header
/// fields say so.
pub open spec fn outgoing_body<R>(m: ResponseModel<R>) -> OutgoingModel<R> {
    if m.suppressed || forbids_body(m.status) {
        OutgoingModel::Nothing
    } else {
        match m.body {
            None => OutgoingModel::Nothing,
            Some(PayloadModel::Bytes(c)) => if chunked(m.fields) {
                OutgoingModel::Whole(chunk(c.bytes) + last_chunk())
            } else {
                OutgoingModel::Whole(c.bytes)
            },
            Some(PayloadModel::Stream { reader, content_length, content_type }) => {
                OutgoingModel::Stream { reader, chunked: chunked(m.fields) }
            },
        }
    }
}

/// Whether header fields say that a body comes in chunks.
fn is_chunked(fields: &FieldLines) -> (r: bool)
    requires
        fields.wf(),
    ensures
        r == chunked(fields@),
{
    match fields.get("transfer-encoding") {
        Some(v) => contains_bytes(v.as_bytes(), "chunked".as_bytes()),
        None => false,
    }
}

/// What follows the head of a response.
pub fn write_body<R>(response: HttpResponse<HttpResponseBodyInitialized, R>) -> (r: OutgoingBody<
    R,
>)
    requires
        response.wf(),
    ensures
        r@ == outgoing_body(response@),
{
    if response.is_suppressed() || status_forbids_body(response.status()) {
        return OutgoingBody::Nothing;
    }
    let in_chunks = is_chunked(response.fields());
    let mut response = response;
    match response.take_body() {
        None => OutgoingBody::Nothing,
        Some(Payload::Bytes(b)) => {
            let bytes = b.to_bytes();
            let data = bytes_as_slice(&bytes);
            let mut out: Vec<u8> = Vec::new();
            if in_chunks {
                out.extend_from_slice(write_chunk(data).as_slice());
                out.extend_from_slice(write_terminating_chunk().as_slice());
                assert(out@ =~= chunk(data@) + last_chunk());
            } else {
                out.extend_from_slice(data);
                assert(out@ =~= data@);
            }
            OutgoingBody::Whole(out)
        },
        Some(Payload::Stream { reader, .. }) => OutgoingBody::Stream {
            reader,
            chunked: in_chunks,
        },
    }
}

/// What the bytes at hand say about the next chunk of a body: more have to come
/// in, the chunk is there, it ends the body, it is larger than there is room
/// for, or it is none.
pub enum ChunkStep {
    Wait,
    Data(Bytes),
    End,
    TooLarge,
    Malformed,
}

/// What the bytes at hand say about the next chunk of a body.
pub enum ChunkStepModel {
    Wait,
    Data(Seq<u8>),
    End,
    TooLarge,
    Malformed,
}

impl View for ChunkStep {
    type V = ChunkStepModel;

    open spec fn view(&self) -> ChunkStepModel {
        match self {
            ChunkStep::Wait => ChunkStepModel::Wait,
            ChunkStep::Data(b) => ChunkStepModel::Data(octets(*b)),
            ChunkStep::End => ChunkStepModel::End,
            ChunkStep::TooLarge => ChunkStepModel::TooLarge,
            ChunkStep::Malformed => ChunkStepModel::Malformed,
        }
    }
}

/// What is left of `s` behind its first chunk, and what that chunk is, where
/// there is room for `room` bytes. A chunk is its length in hexadecimal digits,
/// a line end, its bytes and a line end; one without bytes ends the body.
pub open spec fn next_chunk(s: Seq<u8>, room: nat) -> (Seq<u8>, ChunkStepModel) {
    match first_at(s, "\r\n".spec_bytes()) {
        None => (s, ChunkStepModel::Wait),
        Some(end) => match hex_number_in(s.take(end), usize::MAX as nat) {
            None => (s, ChunkStepModel::Malformed),
            Some(len) => {
                let rest = s.skip(end + 2);
                let behind = rest.skip(len as int);
                if len > room {
                    (s, ChunkStepModel::TooLarge)
                } else if rest.len() < len + 2 {
                    (s, ChunkStepModel::Wait)
                } else if !"\r\n".spec_bytes().is_prefix_of(behind) {
                    (s, ChunkStepModel::Malformed)
                } else if len == 0 {
                    (behind.skip(2), ChunkStepModel::End)
                } else {
                    (behind.skip(2), ChunkStepModel::Data(rest.take(len as int)))
                }
            },
        },
    }
}

// ── Connections ────────────────────────────────────────────────────────────

/// What has come in on a connection and not been read yet, and what is to be
/// said about keeping it open.
pub struct Connection {
    reader: BytesMut,
    has_written_response: bool,
    keep_alive: bool,
    keep_alive_timeout_secs: u64,
}

/// What has come in on a connection and not been read yet, and what is to be
/// said about keeping it open.
pub struct ConnectionModel {
    pub unread: Seq<u8>,
    pub answered: bool,
    pub keep_alive: bool,
    pub timeout_secs: nat,
}

impl View for Connection {
    type V = ConnectionModel;

    closed spec fn view(&self) -> ConnectionModel {
        ConnectionModel {
            unread: octets_mut(self.reader),
            answered: self.has_written_response,
            keep_alive: self.keep_alive,
            timeout_secs: self.keep_alive_timeout_secs as nat,
        }
    }
}

/// What a wait for bytes ended in.
pub enum ReadEvent {
    Data(Vec<u8>),
    Closed,
    TimedOut,
    Failed(std::io::Error),
}

/// Whether any byte of the next request has come in.
#[derive(Debug, Clone, Copy, PartialEq, Eq, Structural)]
pub enum ReadPhase {
    Idle,
    Head,
}

/// What to do next about a request: wait for more of it, or take the answer.
/// Before a wait with `flush`, what has been written so far goes out.
pub enum ReadStep {
    Wait { flush: bool },
    Done(Result<Option<HttpRequest>, HttpRequestError>),
}

/// What to do next about a request.
pub enum ReadStepModel {
    Wait { flush: bool },
    Done(Result<Option<RequestModel>, RequestFailure>),
}

impl View for ReadStep {
    type V = ReadStepModel;

    open spec fn view(&self) -> ReadStepModel {
        match self {
            ReadStep::Wait { flush } => ReadStepModel::Wait { flush: *flush },
            ReadStep::Done(Ok(Some(q))) => ReadStepModel::Done(Ok(Some(q@))),
            ReadStep::Done(Ok(None)) => ReadStepModel::Done(Ok(None)),
            ReadStep::Done(Err(e)) => ReadStepModel::Done(Err(e@)),
        }
    }
}

impl ReadStep {
    /// A request that is handed out is well kept.
    pub open spec fn wf(&self) -> bool {
        self matches ReadStep::Done(Ok(Some(q))) ==> q.wf()
    }
}

/// What is left unread, and what to do, where `unread` has come in: a request is
/// read where its head is complete, and refused where more than 64 KiB have come
/// in without one. Before more is waited for, what has been answered goes out.
pub open spec fn head_step(unread: Seq<u8>, peer: PeerAddress, max_body_size: nat) -> (
    Seq<u8>,
    ReadStepModel,
) {
    match first_at(unread, "\r\n\r\n".spec_bytes()) {
        Some(at) => (
            unread.skip(at + 4),
            ReadStepModel::Done(
                match parse_request(unread.take(at + 4), peer, max_body_size) {
                    Ok(q) => Ok(Some(q)),
                    Err(e) => Err(e),
                },
            ),
        ),
        None => if unread.len() > 65536 {
            (unread, ReadStepModel::Done(Err(RequestFailure::HeadersTooLarge)))
        } else {
            (unread, ReadStepModel::Wait { flush: true })
        },
    }
}

/// What is left unread, and what to do, after a wait.
pub open spec fn event_step(
    unread: Seq<u8>,
    phase: ReadPhase,
    event: ReadEvent,
    peer: PeerAddress,
    max_body_size: nat,
) -> (Seq<u8>, ReadStepModel) {
    match event {
        ReadEvent::Data(data) => head_step(unread + data@, peer, max_body_size),
        ReadEvent::Failed(e) => (unread, ReadStepModel::Done(Err(RequestFailure::Io(e)))),
        ReadEvent::Closed => (
            unread,
            ReadStepModel::Done(
                match phase {
                    ReadPhase::Idle => Ok(None),
                    ReadPhase::Head => Err(
                        RequestFailure::Header("EOF before headers finished".spec_bytes()),
                    ),
                },
            ),
        ),
        ReadEvent::TimedOut => (
            unread,
            ReadStepModel::Done(
                match phase {
                    ReadPhase::Idle => Ok(None),
                    ReadPhase::Head => Err(RequestFailure::Timeout),
                },
            ),
        ),
    }
}

/// What is sent for a response.
pub struct Outgoing<R> {
    pub head: Vec<u8>,
    pub body: OutgoingBody<R>,
    pub flush: bool,
    pub status: HttpStatusCode,
}

impl Connection {
    pub fn new() -> (r: Connection)
        ensures
            r@ == (ConnectionModel {
                unread: Seq::empty(),
                answered: false,
                keep_alive: true,
                timeout_secs: 75,
            }),
    {
        Connection {
            reader: bytes_mut_with_capacity(8192),
            has_written_response: false,
            keep_alive: true,
            keep_alive_timeout_secs: 75,
        }
    }

    pub fn set_keep_alive(&mut self, keep_alive: bool, timeout_secs: u64)
        ensures
            final(self)@ == (ConnectionModel {
                keep_alive,
                timeout_secs: timeout_secs as nat,
                ..old(self)@
            }),
    {
        self.keep_alive = keep_alive;
        self.keep_alive_timeout_secs = timeout_secs;
    }

    pub fn has_written_response(&self) -> (r: bool)
        ensures
            r == self@.answered,
    {
        self.has_written_response
    }

    /// Reads a request's head from what has come in.
    fn read_head(&mut self, peer: PeerAddress, max_body_size: usize) -> (r: ReadStep)
        ensures
            r.wf(),
            head_step(old(self)@.unread, peer, max_body_size as nat) == (final(self)@.unread, r@),
            final(self)@ == (ConnectionModel { unread: final(self)@.unread, ..old(self)@ }),
    {
        proof {
            reveal_strlit("\r\n\r\n");
            assert(is_ascii("\r\n\r\n"));
        }
        let ghost unread = self@.unread;
        let found: Option<usize> = first_index(
            bytes_mut_as_slice(&self.reader),
            "\r\n\r\n".as_bytes(),
        );
        match found {
            Some(at) => {
                let n: usize = bytes_mut_as_slice(&self.reader).len();
                assert(n == unread.len());
                let head = bytes_mut_freeze(bytes_mut_split_to(&mut self.reader, at + 4));
                assert(octets(head) =~= unread.take(at + 4));
                assert(self@.unread =~= unread.skip(at + 4));
                match HttpRequest::parse(head, peer, max_body_size) {
                    Ok(q) => ReadStep::Done(Ok(Some(q))),
                    Err(e) => ReadStep::Done(Err(e)),
                }
            },
            None => if bytes_mut_as_slice(&self.reader).len() > 65536 {
                ReadStep::Done(Err(HttpRequestError::HeadersTooLarge))
            } else {
                ReadStep::Wait { flush: true }
            },
        }
    }

    /// Starts to read a request: where nothing has come in, waits for it.
    pub fn read_request(&mut self, peer: PeerAddress, max_body_size: usize) -> (r: (
        ReadPhase,
        ReadStep,
    ))
        ensures
            r.1.wf(),
            final(self)@ == (ConnectionModel { unread: final(self)@.unread, ..old(self)@ }),
            old(self)@.unread.len() == 0 ==> r.0 == ReadPhase::Idle && r.1@ == (
            ReadStepModel::Wait { flush: false }) && final(self)@.unread == old(self)@.unread,
            old(self)@.unread.len() > 0 ==> r.0 == ReadPhase::Head && head_step(
                old(self)@.unread,
                peer,
                max_body_size as nat,
            ) == (final(self)@.unread, r.1@),
    {
        if bytes_mut_as_slice(&self.reader).len() == 0 {
            (ReadPhase::Idle, ReadStep::Wait { flush: false })
        } else {
            (ReadPhase::Head, self.read_head(peer, max_body_size))
        }
    }

    /// Goes on reading a request after a wait.
    pub fn read_event(
        &mut self,
        phase: ReadPhase,
        event: ReadEvent,
        peer: PeerAddress,
        max_body_size: usize,
    ) -> (r: ReadStep)
        ensures
            r.wf(),
            event_step(old(self)@.unread, phase, event, peer, max_body_size as nat) == (
                final(self)@.unread,
                r@,
            ),
            final(self)@ == (ConnectionModel { unread: final(self)@.unread, ..old(self)@ }),
    {
        match event {
            ReadEvent::Data(data) => {
                bytes_mut_extend(&mut self.reader, data.as_slice());
                self.read_head(peer, max_body_size)
            },
            ReadEvent::Failed(e) => ReadStep::Done(Err(HttpRequestError::Io(e))),
            ReadEvent::Closed => match phase {
                ReadPhase::Idle => ReadStep::Done(Ok(None)),
                ReadPhase::Head => ReadStep::Done(
                    Err(
                        HttpRequestError::HeaderParsingFailed(
                            "EOF before headers finished".to_owned(),
                        ),
                    ),
                ),
            },
            ReadEvent::TimedOut => match phase {
                ReadPhase::Idle => ReadStep::Done(Ok(None)),
                ReadPhase::Head => ReadStep::Done(Err(HttpRequestError::Timeout)),
            },
        }
    }

    /// What is sent for a response at the moment `now_secs`. What goes out is
    /// held back while more requests have already come in.
    pub fn write_response<R>(
        &mut self,
        response: HttpResponse<HttpResponseBodyInitialized, R>,
        cache: &mut DateCache,
        now_secs: u64,
        stamp: u64,
    ) -> (r: Outgoing<R>)
        requires
            response.wf(),
            response@.cookies matches Some(c) ==> cookies_in_range(c, now_secs as int),
            stamp <= 8_210_266_876_799,
        ensures
            final(self)@ == (ConnectionModel { answered: true, ..old(self)@ }),
            final(cache).secs == now_secs,
            final(cache).text@ == date_now(
                old(cache).secs as int,
                old(cache).text@,
                now_secs as int,
                stamp as int,
            ),
            r.head@ == response_head(
                response@,
                old(self)@.keep_alive,
                old(self)@.timeout_secs,
                final(cache).text@,
                now_secs as int,
            ),
            r.body@ == outgoing_body(response@),
            r.flush == (old(self)@.unread.len() == 0),
            r.status == response@.status,
    {
        self.has_written_response = true;
        let mut head: Vec<u8> = Vec::new();
        put_status_line(&mut head, &response);
        write_date_header(&mut head, cache, now_secs, stamp);
        put_keep_alive(&mut head, self.keep_alive, self.keep_alive_timeout_secs);
        put_no_content(&mut head, &response);
        put_field_lines(&mut head, response.fields());
        put_cookies(&mut head, &response, now_secs);
        head.extend_from_slice("\r\n".as_bytes());
        proof {
            let m = response@;
            lemma_seven(
                Seq::empty(),
                m.version + " ".spec_bytes() + m.status.text() + "\r\n".spec_bytes(),
                "date: ".spec_bytes() + cache.text@ + "\r\n".spec_bytes(),
                keep_alive_text(self@.keep_alive, self@.timeout_secs),
                no_content_text(m),
                field_lines_text(m.fields),
                cookies_text(m.cookies, now_secs as int),
                "\r\n".spec_bytes(),
            );
            assert(head@ =~= response_head(
                m,
                self@.keep_alive,
                self@.timeout_secs,
                cache.text@,
                now_secs as int,
            ));
        }
        let status = response.status();
        let flush = bytes_mut_as_slice(&self.reader).len() == 0;
        Outgoing { head, body: write_body(response), flush, status }
    }
}

impl Connection {
    /// Takes in bytes of a body.
    pub fn receive(&mut self, data: &[u8])
        ensures
            final(self)@ == (ConnectionModel {
                unread: old(self)@.unread + data@,
                ..old(self)@
            }),
    {
        bytes_mut_extend(&mut self.reader, data);
    }

    /// Takes the next `len` bytes of a body, where they have come in.
    pub fn take_exact(&mut self, len: usize) -> (r: Option<Bytes>)
        ensures
            final(self)@ == (ConnectionModel { unread: final(self)@.unread, ..old(self)@ }),
            match r {
                Some(b) => len <= old(self)@.unread.len() && octets(b) == old(self)@.unread.take(
                    len as int,
                ) && final(self)@.unread == old(self)@.unread.skip(len as int),
                None => len > old(self)@.unread.len() && final(self)@.unread == old(self)@.unread,
            },
    {
        let ghost unread = self@.unread;
        if bytes_mut_as_slice(&self.reader).len() < len {
            return None;
        }
        let b = bytes_mut_freeze(bytes_mut_split_to(&mut self.reader, len));
        assert(octets(b) =~= unread.take(len as int));
        assert(self@.unread =~= unread.skip(len as int));
        Some(b)
    }

    /// Takes the next chunk of a body, where it has come in and has no more than
    /// `room` bytes.
    pub fn take_chunk(&mut self, room: usize) -> (r: ChunkStep)
        ensures
            final(self)@ == (ConnectionModel { unread: final(self)@.unread, ..old(self)@ }),
            next_chunk(old(self)@.unread, room as nat) == (final(self)@.unread, r@),
    {
        proof {
            reveal_strlit("\r\n");
            assert(is_ascii("\r\n"));
        }
        let ghost unread = self@.unread;
        let s = bytes_mut_as_slice(&self.reader);
        let n: usize = s.len();
        let end: usize = match first_index(s, "\r\n".as_bytes()) {
            Some(end) => end,
            None => return ChunkStep::Wait,
        };
        let digits = slice_subrange(s, 0, end);
        assert(digits@ =~= unread.take(end as int));
        let len: usize = match parse_hex(digits, usize::MAX) {
            Some(len) => len,
            None => return ChunkStep::Malformed,
        };
        if len > room {
            return ChunkStep::TooLarge;
        }
        let left: usize = n - end - 2;
        if left < 2 || left - 2 < len {
            return ChunkStep::Wait;
        }
        let behind = slice_subrange(s, end + 2 + len, n);
        assert(behind@ =~= unread.skip(end + 2).skip(len as int));
        if !starts_with(behind, "\r\n".as_bytes()) {
            return ChunkStep::Malformed;
        }
        let ghost rest = behind@.skip(2);
        let taken = bytes_mut_freeze(bytes_mut_split_to(&mut self.reader, end + 2 + len + 2));
        assert(self@.unread =~= rest);
        if len == 0 {
            ChunkStep::End
        } else {
            let data = bytes_slice(&taken, end + 2, end + 2 + len);
            assert(octets(data) =~= unread.skip(end + 2).take(len as int));
            ChunkStep::Data(data)
        }
    }
}

// ── Laws ───────────────────────────────────────────────────────────────────

/// Where `needle` first stands in `s`, it also first stands where more follows.
proof fn lemma_first_at_extended(s: Seq<u8>, more: Seq<u8>, needle: Seq<u8>)
    requires
        first_at(s, needle) is Some,
    ensures
        first_at(s + more, needle) == first_at(s, needle),
{
    lemma_first_at(s, needle);
    lemma_first_at(s + more, needle);
    let i = first_at(s, needle)->Some_0;
    assert((s + more).subrange(i, i + needle.len()) =~= s.subrange(i, i + needle.len()));
    assert(occurs_at(s + more, needle, i));
    if let Some(j) = first_at(s + more, needle) {
        if j < i {
            assert((s + more).subrange(j, j + needle.len()) =~= s.subrange(j, j + needle.len()));
            assert(occurs_at(s, needle, j));
        }
    }
}

/// Reading a request takes its head alone: what has come in behind it is left
/// for later.
pub proof fn law_later_requests_kept(
    head: Seq<u8>,
    rest: Seq<u8>,
    peer: PeerAddress,
    max_body_size: nat,
)
    requires
        first_at(head, "\r\n\r\n".spec_bytes()) == Some(head.len() - 4),
    ensures
        head_step(head + rest, peer, max_body_size) == (
            rest,
            head_step(head, peer, max_body_size).1,
        ),
{
    lemma_first_at_extended(head, rest, "\r\n\r\n".spec_bytes());
    lemma_first_at(head, "\r\n\r\n".spec_bytes());
    assert((head + rest).take(head.len() as int) =~= head);
    assert(head.take(head.len() as int) =~= head);
    assert((head + rest).skip(head.len() as int) =~= rest);
}

/// The bytes of a line end.
proof fn lemma_line_end()
    ensures
        "\r\n".spec_bytes() == seq![13u8, 10u8],
{
    reveal_strlit("\r\n");
    assert(is_ascii("\r\n"));
    assert("\r\n".spec_bytes() =~= seq![13u8, 10u8]);
}

/// The first line end of a chunk stands behind its length.
proof fn lemma_chunk_line(digits: Seq<u8>, behind: Seq<u8>, eol: Seq<u8>)
    requires
        all_hex(digits),
        eol == seq![13u8, 10u8],
    ensures
        first_at(digits + eol + behind, eol) == Some(digits.len() as int),
{
    let s = digits + eol + behind;
    let n = digits.len() as int;
    assert(s.subrange(n, n + 2) =~= eol);
    assert forall|j: int| 0 <= j < n implies !occurs_at(s, eol, j) by {
        assert(s[j] == digits[j]);
        if occurs_at(s, eol, j) {
            assert(s.subrange(j, j + 2)[0] == 13);
        }
    }
    lemma_first_is(s, eol, n);
}

/// Reading a chunk that was written gives its bytes back, and leaves what
/// follows it.
#[verifier::spinoff_prover]
pub proof fn law_chunk_reads_back(data: Seq<u8>, rest: Seq<u8>, room: nat)
    requires
        0 < data.len() <= usize::MAX,
        data.len() <= room,
    ensures
        next_chunk(chunk(data) + rest, room) == (rest, ChunkStepModel::Data(data)),
{
    lemma_line_end();
    let eol = "\r\n".spec_bytes();
    let digits = hexadecimal(data.len());
    let n = digits.len() as int;
    let behind = data + (eol + rest);
    let s = digits + eol + behind;
    assert(chunk(data) + rest =~= s);
    law_hexadecimal_reads_back(data.len(), usize::MAX as nat);
    lemma_chunk_line(digits, behind, eol);
    assert(s.take(n) =~= digits);
    assert(s.skip(n + 2) =~= behind);
    assert(behind.take(data.len() as int) =~= data);
    assert(behind.skip(data.len() as int) =~= eol + rest);
    assert((eol + rest).subrange(0, 2) =~= eol);
    assert((eol + rest).skip(2) =~= rest);
}

/// Reading the chunk that ends a body says that the body has ended, and leaves
/// what follows.
pub proof fn law_last_chunk_reads_back(rest: Seq<u8>, room: nat)
    ensures
        next_chunk(last_chunk() + rest, room) == (rest, ChunkStepModel::End),
{
    lemma_line_end();
    reveal_strlit("0\r\n\r\n");
    assert(is_ascii("0\r\n\r\n"));
    let eol = "\r\n".spec_bytes();
    let s = last_chunk() + rest;
    assert(s.subrange(1, 3) =~= eol);
    assert(occurs_at(s, eol, 1));
    lemma_first_at(s, eol);
    if first_at(s, eol) == Some(0int) {
        assert(s.subrange(0, 2)[0] == 48);
    }
    let digits = s.take(1);
    assert(digits =~= seq![48u8]);
    assert(digits.drop_last() =~= Seq::<u8>::empty());
    assert(hex_value(digits.drop_last()) == 0);
    assert(hex_value(digits) == 0);
    assert(s.skip(3) =~= eol + rest);
    assert((eol + rest).skip(0) =~= eol + rest);
    assert((eol + rest).subrange(0, 2) =~= eol);
    assert((eol + rest).skip(2) =~= rest);
}

/// A body that goes out in chunks is read back, and what follows it is left.
pub proof fn law_chunked_body_reads_back(data: Seq<u8>, rest: Seq<u8>, room: nat)
    requires
        0 < data.len() <= usize::MAX,
        data.len() <= room,
    ensures
        next_chunk(chunk(data) + last_chunk() + rest, room) == (
            last_chunk() + rest,
            ChunkStepModel::Data(data),
        ),
        next_chunk(last_chunk() + rest, (room - data.len()) as nat) == (rest, ChunkStepModel::End),
{
    assert(chunk(data) + last_chunk() + rest =~= chunk(data) + (last_chunk() + rest));
    law_chunk_reads_back(data, last_chunk() + rest, room);
    law_last_chunk_reads_back(rest, (room - data.len()) as nat);
}

/// The header fields that the connection does not itself write.
pub open spec fn own_fields(fields: Seq<Field>) -> Seq<Field>
    decreases fields.len(),
{
    if fields.len() == 0 {
        Seq::empty()
    } else if injected(fields.last().0) {
        own_fields(fields.drop_last())
    } else {
        own_fields(fields.drop_last()).push(fields.last())
    }
}

/// The header fields that go out with a response: the date, whether the
/// connection stays open, that nothing follows where that has to be said, and
/// those of the response.
pub open spec fn sent_fields<R>(
    m: ResponseModel<R>,
    keep_alive: bool,
    timeout_secs: nat,
    date: Seq<u8>,
) -> Seq<Field> {
    seq![("date".spec_bytes(), date)] + (if keep_alive {
        seq![
            ("connection".spec_bytes(), "keep-alive".spec_bytes()),
            ("keep-alive".spec_bytes(), "timeout=".spec_bytes() + decimal(timeout_secs)),
        ]
    } else {
        seq![("connection".spec_bytes(), "close".spec_bytes())]
    }) + (if no_content_text(m).len() > 0 {
        seq![("content-length".spec_bytes(), "0".spec_bytes())]
    } else {
        Seq::empty()
    }) + own_fields(m.fields)
}

proof fn lemma_block_concat(a: Seq<Field>, b: Seq<Field>)
    ensures
        field_block(a + b) == field_block(a) + field_block(b),
    decreases b.len(),
{
    if b.len() == 0 {
        assert(a + b =~= a);
        assert(field_block(a) + field_block(b) =~= field_block(a));
    } else {
        lemma_block_concat(a, b.drop_last());
        assert((a + b).drop_last() =~= a + b.drop_last());
        assert(field_block(a) + field_block(b.drop_last()) + field_line(b.last()) =~= field_block(a)
            + (field_block(b.drop_last()) + field_line(b.last())));
    }
}

proof fn lemma_own_block(fields: Seq<Field>)
    ensures
        field_lines_text(fields) == field_block(own_fields(fields)),
    decreases fields.len(),
{
    if fields.len() > 0 {
        lemma_own_block(fields.drop_last());
        if !injected(fields.last().0) {
            assert(own_fields(fields).drop_last() =~= own_fields(fields.drop_last()));
        }
    }
}

/// The block of one field is its line.
proof fn lemma_block_one(f: Field)
    ensures
        field_block(seq![f]) == field_line(f),
{
    assert(seq![f].drop_last() =~= Seq::<Field>::empty());
    assert(field_block(Seq::<Field>::empty()) =~= Seq::<u8>::empty());
    assert(field_block(seq![f]) =~= field_line(f));
}

/// The lines that say whether the connection stays open are those of fields.
proof fn lemma_keep_alive_block(keep_alive: bool, timeout_secs: nat)
    ensures
        keep_alive ==> keep_alive_text(keep_alive, timeout_secs) == field_block(
            seq![
                ("connection".spec_bytes(), "keep-alive".spec_bytes()),
                ("keep-alive".spec_bytes(), "timeout=".spec_bytes() + decimal(timeout_secs)),
            ],
        ),
        !keep_alive ==> keep_alive_text(keep_alive, timeout_secs) == field_block(
            seq![("connection".spec_bytes(), "close".spec_bytes())],
        ),
{
    let colon = ": ".spec_bytes();
    let eol = "\r\n".spec_bytes();
    lemma_line_end();
    reveal_strlit(": ");
    reveal_strlit("connection");
    reveal_strlit("keep-alive");
    reveal_strlit("close");
    reveal_strlit("timeout=");
    assert(is_ascii(": ") && is_ascii("connection") && is_ascii("keep-alive") && is_ascii("close")
        && is_ascii("timeout="));
    if keep_alive {
        let a = ("connection".spec_bytes(), "keep-alive".spec_bytes());
        let b = ("keep-alive".spec_bytes(), "timeout=".spec_bytes() + decimal(timeout_secs));
        reveal_strlit("connection: keep-alive\r\n");
        reveal_strlit("keep-alive: timeout=");
        assert(is_ascii("connection: keep-alive\r\n") && is_ascii("keep-alive: timeout="));
        assert("connection: keep-alive\r\n".spec_bytes() =~= field_line(a));
        assert("keep-alive: timeout=".spec_bytes() =~= "keep-alive".spec_bytes() + colon
            + "timeout=".spec_bytes());
        assert("keep-alive: timeout=".spec_bytes() + decimal(timeout_secs) + eol =~= field_line(b));
        lemma_block_one(a);
        lemma_block_one(b);
        lemma_block_concat(seq![a], seq![b]);
        assert(seq![a] + seq![b] =~= seq![a, b]);
        assert(keep_alive_text(true, timeout_secs) =~= field_line(a) + field_line(b));
    } else {
        let a = ("connection".spec_bytes(), "close".spec_bytes());
        reveal_strlit("connection: close\r\n");
        assert(is_ascii("connection: close\r\n"));
        assert("connection: close\r\n".spec_bytes() =~= field_line(a));
        lemma_block_one(a);
    }
}

proof fn lemma_no_content_block<R>(m: ResponseModel<R>)
    ensures
        no_content_text(m) == field_block(
            if no_content_text(m).len() > 0 {
                seq![("content-length".spec_bytes(), "0".spec_bytes())]
            } else {
                Seq::empty()
            },
        ),
{
    let a = ("content-length".spec_bytes(), "0".spec_bytes());
    lemma_line_end();
    reveal_strlit(": ");
    reveal_strlit("content-length");
    reveal_strlit("0");
    reveal_strlit("content-length: 0\r\n");
    assert(is_ascii(": ") && is_ascii("content-length") && is_ascii("0") && is_ascii(
        "content-length: 0\r\n",
    ));
    assert("content-length: 0\r\n".spec_bytes() =~= field_line(a));
    lemma_block_one(a);
}

/// The head of a response without cookies is its status line, the lines of the
/// fields that go out with it, and an empty line.
pub proof fn law_head_lines<R>(
    m: ResponseModel<R>,
    keep_alive: bool,
    timeout_secs: nat,
    date: Seq<u8>,
    now: int,
)
    requires
        m.cookies is None,
    ensures
        response_head(m, keep_alive, timeout_secs, date, now) == m.version + " ".spec_bytes()
            + m.status.text() + "\r\n".spec_bytes() + field_block(
            sent_fields(m, keep_alive, timeout_secs, date),
        ) + "\r\n".spec_bytes(),
{
    let eol = "\r\n".spec_bytes();
    let status = m.version + " ".spec_bytes() + m.status.text() + eol;
    let first = seq![("date".spec_bytes(), date)];
    let alive = if keep_alive {
        seq![
            ("connection".spec_bytes(), "keep-alive".spec_bytes()),
            ("keep-alive".spec_bytes(), "timeout=".spec_bytes() + decimal(timeout_secs)),
        ]
    } else {
        seq![("connection".spec_bytes(), "close".spec_bytes())]
    };
    let none = if no_content_text(m).len() > 0 {
        seq![("content-length".spec_bytes(), "0".spec_bytes())]
    } else {
        Seq::empty()
    };
    let own = own_fields(m.fields);
    reveal_strlit("date: ");
    reveal_strlit("date");
    reveal_strlit(": ");
    assert(is_ascii("date: ") && is_ascii("date") && is_ascii(": "));
    assert("date: ".spec_bytes() =~= "date".spec_bytes() + ": ".spec_bytes());
    lemma_block_one(("date".spec_bytes(), date));
    lemma_keep_alive_block(keep_alive, timeout_secs);
    lemma_no_content_block(m);
    lemma_own_block(m.fields);
    lemma_block_concat(first, alive);
    lemma_block_concat(first + alive, none);
    lemma_block_concat(first + alive + none, own);
    let a = "date: ".spec_bytes() + date + eol;
    let b = keep_alive_text(keep_alive, timeout_secs);
    let c = no_content_text(m);
    let d = field_lines_text(m.fields);
    assert(field_block(sent_fields(m, keep_alive, timeout_secs, date)) == a + b + c + d);
    lemma_seven(status, a, b, c, d, Seq::empty(), Seq::empty(), Seq::empty());
    assert(a + b + c + d + Seq::<u8>::empty() + Seq::<u8>::empty() + Seq::<u8>::empty() =~= a + b
        + c + d);
    assert(status + a + b + c + d + Seq::<u8>::empty() + Seq::<u8>::empty() + Seq::<u8>::empty()
        =~= status + a + b + c + d);
    assert(response_head(m, keep_alive, timeout_secs, date, now) =~= status + a + b + c + d + eol);
}

/// Printed ASCII characters without blanks.
spec fn printed(s: Seq<u8>) -> bool {
    forall|i: int| 0 <= i < s.len() ==> 33 <= #[trigger] s[i] <= 126
}

proof fn lemma_printed_clean(name: Seq<u8>, value: Seq<u8>)
    requires
        name.len() > 0,
        printed(name),
        printed(value),
        forall|i: int| 0 <= i < name.len() ==> #[trigger] name[i] != 58,
    ensures
        clean((name, value)),
        valid_utf8(name),
        valid_utf8(value),
{
    lemma_ascii_valid(name);
    lemma_ascii_valid(value);
    assert(33 <= name[0]);
    assert(33 <= name[name.len() - 1]);
    assert(trimmed(name, true) == name);
    if value.len() > 0 {
        assert(33 <= value[0]);
        assert(33 <= value[value.len() - 1]);
    }
    assert(trimmed(value, true) == value);
}

proof fn lemma_decimal_printed(n: nat)
    ensures
        printed("timeout=".spec_bytes() + decimal(n)),
{
    reveal_strlit("timeout=");
    assert(is_ascii("timeout="));
    lemma_decimal_digits(n);
    let s = "timeout=".spec_bytes() + decimal(n);
    assert forall|i: int| 0 <= i < s.len() implies 33 <= #[trigger] s[i] <= 126 by {
        if i >= 8 {
            assert(s[i] == decimal(n)[i - 8]);
        }
    }
}

proof fn lemma_own_kept(fields: Seq<Field>)
    requires
        well_kept(fields),
        forall|k: int| 0 <= k < fields.len() ==> clean(#[trigger] fields[k]),
    ensures
        well_kept(own_fields(fields)),
        forall|i: int|
            0 <= i < own_fields(fields).len() ==> clean(#[trigger] own_fields(fields)[i])
                && !injected(own_fields(fields)[i].0) && fields.contains(own_fields(fields)[i]),
    decreases fields.len(),
{
    if fields.len() > 0 {
        let front = fields.drop_last();
        let last = fields.last();
        assert(last == fields[fields.len() - 1]);
        assert forall|k: int| 0 <= k < front.len() implies clean(#[trigger] front[k]) by {
            assert(front[k] == fields[k]);
        }
        assert(well_kept(front)) by {
            assert forall|i: int| #![trigger front[i]] 0 <= i < front.len() implies valid_utf8(
                front[i].0,
            ) && valid_utf8(front[i].1) && lower_all(front[i].0) == front[i].0 by {
                assert(front[i] == fields[i]);
            }
            assert forall|i: int, j: int| 0 <= i < j < front.len() implies (
            #[trigger] front[i]).0 != (#[trigger] front[j]).0 by {
                assert(front[i] == fields[i] && front[j] == fields[j]);
            }
        }
        lemma_own_kept(front);
        let own = own_fields(fields);
        let rest = own_fields(front);
        assert forall|i: int| 0 <= i < rest.len() implies fields.contains(#[trigger] rest[i])
            && (rest[i].0 != last.0) by {
            assert(front.contains(rest[i]));
            let k = choose|k: int| 0 <= k < front.len() && front[k] == rest[i];
            assert(fields[k] == rest[i]);
            assert(fields[k].0 != fields[fields.len() - 1].0);
        }
        assert(fields.contains(last)) by {
            assert(fields[fields.len() - 1] == last);
        }
    }
}

/// What is sent is well kept and clean where the response's own fields are.
#[verifier::spinoff_prover]
proof fn lemma_sent_kept<R>(
    m: ResponseModel<R>,
    keep_alive: bool,
    timeout_secs: nat,
    date: Seq<u8>,
)
    requires
        well_kept(m.fields),
        forall|k: int| 0 <= k < m.fields.len() ==> clean(#[trigger] m.fields[k]),
        clean(("date".spec_bytes(), date)),
        valid_utf8(date),
    ensures
        well_kept(sent_fields(m, keep_alive, timeout_secs, date)),
        forall|k: int|
            0 <= k < sent_fields(m, keep_alive, timeout_secs, date).len() ==> clean(
                #[trigger] sent_fields(m, keep_alive, timeout_secs, date)[k],
            ),
{
    let own = own_fields(m.fields);
    let all = sent_fields(m, keep_alive, timeout_secs, date);
    let n = all.len() - own.len();
    lemma_own_kept(m.fields);
    lemma_names();
    lemma_decimal_printed(timeout_secs);
    lemma_printed_clean("date".spec_bytes(), Seq::empty());
    lemma_printed_clean("connection".spec_bytes(), "keep-alive".spec_bytes());
    lemma_printed_clean("connection".spec_bytes(), "close".spec_bytes());
    lemma_printed_clean("keep-alive".spec_bytes(), "timeout=".spec_bytes() + decimal(timeout_secs));
    lemma_printed_clean("content-length".spec_bytes(), "0".spec_bytes());
    lemma_field_index(m.fields, "content-length".spec_bytes());
    assert forall|i: int| 0 <= i < own.len() implies own[i] == #[trigger] all[n + i] by {}
    assert forall|k: int| n <= k < all.len() implies #[trigger] all[k] == own[k - n] by {}
    assert forall|i: int| 0 <= i < own.len() implies (#[trigger] own[i]).0 != "date".spec_bytes()
        && own[i].0 != "connection".spec_bytes() && own[i].0 != "keep-alive".spec_bytes() && (
    no_content_text(m).len() > 0 ==> own[i].0 != "content-length".spec_bytes()) by {
        assert(!injected(own[i].0));
        assert(m.fields.contains(own[i]));
        let k = choose|k: int| 0 <= k < m.fields.len() && m.fields[k] == own[i];
        if no_content_text(m).len() > 0 {
            assert(!same_ignoring_case(m.fields[k].0, "content-length".spec_bytes()));
        }
    }
    assert forall|k: int| 0 <= k < all.len() implies clean(#[trigger] all[k]) by {
        if k >= n {
            assert(all[k] == own[k - n]);
        }
    }
    assert forall|i: int| #![trigger all[i]] 0 <= i < all.len() implies valid_utf8(all[i].0)
        && valid_utf8(all[i].1) && lower_all(all[i].0) == all[i].0 by {
        if i >= n {
            assert(all[i] == own[i - n]);
        }
    }
    assert forall|i: int, j: int| 0 <= i < j < all.len() implies (#[trigger] all[i]).0 != (
    #[trigger] all[j]).0 by {
        if i >= n {
            assert(all[i] == own[i - n] && all[j] == own[j - n]);
        } else if j >= n {
            assert(all[j] == own[j - n]);
        }
    }
}

/// The names that the connection itself writes.
proof fn lemma_names()
    ensures
        ({
            let date = "date".spec_bytes();
            let connection = "connection".spec_bytes();
            let alive = "keep-alive".spec_bytes();
            let length = "content-length".spec_bytes();
            &&& lower_all(date) == date && lower_all(connection) == connection
            &&& lower_all(alive) == alive && lower_all(length) == length
            &&& date != connection && date != alive && date != length
            &&& connection != alive && connection != length && alive != length
            &&& date.len() > 0 && connection.len() > 0 && alive.len() > 0 && length.len() > 0
            &&& printed(date) && printed(connection) && printed(alive) && printed(length)
            &&& forall|i: int| 0 <= i < date.len() ==> #[trigger] date[i] != 58
            &&& forall|i: int| 0 <= i < connection.len() ==> #[trigger] connection[i] != 58
            &&& forall|i: int| 0 <= i < alive.len() ==> #[trigger] alive[i] != 58
            &&& forall|i: int| 0 <= i < length.len() ==> #[trigger] length[i] != 58
            &&& printed("close".spec_bytes()) && printed("0".spec_bytes())
        }),
{
    reveal_strlit("date");
    reveal_strlit("connection");
    reveal_strlit("keep-alive");
    reveal_strlit("content-length");
    reveal_strlit("close");
    reveal_strlit("0");
    assert(is_ascii("date") && is_ascii("connection") && is_ascii("keep-alive") && is_ascii(
        "content-length",
    ) && is_ascii("close") && is_ascii("0"));
    assert(lower_all("date".spec_bytes()) =~= "date".spec_bytes());
    assert(lower_all("connection".spec_bytes()) =~= "connection".spec_bytes());
    assert(lower_all("keep-alive".spec_bytes()) =~= "keep-alive".spec_bytes());
    assert(lower_all("content-length".spec_bytes()) =~= "content-length".spec_bytes());
    assert("connection".spec_bytes()[0] != "keep-alive".spec_bytes()[0]);
}

/// The date of a response stays the same on the wire.
pub proof fn law_date_clean(stamp: int)
    ensures
        clean(("date".spec_bytes(), signed_date(stamp))),
        valid_utf8(signed_date(stamp)),
{
    let date = signed_date(stamp);
    law_date_plain(stamp);
    lemma_names();
    lemma_printed_clean("date".spec_bytes(), Seq::empty());
    assert forall|i: int| 0 <= i < date.len() implies #[trigger] date[i] < 128 && date[i] != 10 by {
        assert(32 <= date[i] <= 126);
    }
    lemma_ascii_valid(date);
    assert(trim_start(date) == date);
    assert(trim_end(date, true) == date);
}

/// What goes out with a response is read back from its lines: the date, whether
/// the connection stays open, and every header field of the response that the
/// connection does not itself write.
pub proof fn law_sent_fields_read_back<R>(
    m: ResponseModel<R>,
    keep_alive: bool,
    timeout_secs: nat,
    date: Seq<u8>,
)
    requires
        well_kept(m.fields),
        forall|k: int| 0 <= k < m.fields.len() ==> clean(#[trigger] m.fields[k]),
        clean(("date".spec_bytes(), date)),
        valid_utf8(date),
    ensures
        parse_fields(
            field_block(sent_fields(m, keep_alive, timeout_secs, date)) + "\r\n".spec_bytes(),
        ) == sent_fields(m, keep_alive, timeout_secs, date),
{
    lemma_sent_kept(m, keep_alive, timeout_secs, date);
    law_fields_read_back(sent_fields(m, keep_alive, timeout_secs, date));
}

/// A response to a request for the head alone, and one whose status has no
/// body, sends none.
pub proof fn law_no_body<R>(m: ResponseModel<R>)
    requires
        m.suppressed || m.status == HttpStatusCode::NoContent || m.status
            == HttpStatusCode::NotModified,
    ensures
        outgoing_body(m) is Nothing,
{
}

/// Which header fields go out with a response, in this order: the date, whether the
/// connection stays open and for how long, that nothing follows where the status
/// allows a body and there is none of which a length is given, and those of the
/// response.
pub proof fn law_sent_fields<R>(
    m: ResponseModel<R>,
    keep_alive: bool,
    timeout_secs: nat,
    date: Seq<u8>,
)
    ensures
        ({
            let open = seq![
                ("date".spec_bytes(), date),
                ("connection".spec_bytes(), "keep-alive".spec_bytes()),
                ("keep-alive".spec_bytes(), "timeout=".spec_bytes() + decimal(timeout_secs)),
            ];
            let closed = seq![
                ("date".spec_bytes(), date),
                ("connection".spec_bytes(), "close".spec_bytes()),
            ];
            let first = if keep_alive {
                open
            } else {
                closed
            };
            let bare = m.status != HttpStatusCode::NoContent && m.status
                != HttpStatusCode::NotModified && m.body is None && field_value(
                m.fields,
                "content-length".spec_bytes(),
            ) is None;
            &&& bare ==> sent_fields(m, keep_alive, timeout_secs, date) == first + seq![
                ("content-length".spec_bytes(), "0".spec_bytes()),
            ] + own_fields(m.fields)
            &&& !bare ==> sent_fields(m, keep_alive, timeout_secs, date) == first + own_fields(
                m.fields,
            )
        }),
{
    reveal_strlit("content-length: 0\r\n");
    assert(is_ascii("content-length: 0\r\n"));
    assert("content-length: 0\r\n".spec_bytes().len() > 0);
    let open = seq![
        ("date".spec_bytes(), date),
        ("connection".spec_bytes(), "keep-alive".spec_bytes()),
        ("keep-alive".spec_bytes(), "timeout=".spec_bytes() + decimal(timeout_secs)),
    ];
    let closed = seq![
        ("date".spec_bytes(), date),
        ("connection".spec_bytes(), "close".spec_bytes()),
    ];
    let first = if keep_alive {
        open
    } else {
        closed
    };
    assert(no_content_text(m).len() > 0 ==> sent_fields(m, keep_alive, timeout_secs, date) =~= first
        + seq![("content-length".spec_bytes(), "0".spec_bytes())] + own_fields(m.fields));
    assert(no_content_text(m).len() == 0 ==> sent_fields(m, keep_alive, timeout_secs, date)
        =~= first + own_fields(m.fields));
}

/// The header fields of a response that go out are all of them, in order, but those
/// called `date`, `connection` or `keep-alive` in any case.
pub proof fn law_own_fields(a: Seq<Field>, b: Seq<Field>, field: Field)
    ensures
        own_fields(a + b) == own_fields(a) + own_fields(b),
        own_fields(Seq::empty()) == Seq::<Field>::empty(),
        same_ignoring_case(field.0, "date".spec_bytes()) || same_ignoring_case(
            field.0,
            "connection".spec_bytes(),
        ) || same_ignoring_case(field.0, "keep-alive".spec_bytes()) ==> own_fields(seq![field])
            == Seq::<Field>::empty(),
        !same_ignoring_case(field.0, "date".spec_bytes()) && !same_ignoring_case(
            field.0,
            "connection".spec_bytes(),
        ) && !same_ignoring_case(field.0, "keep-alive".spec_bytes()) ==> own_fields(seq![field])
            == seq![field],
    decreases b.len(),
{
    let one = seq![field];
    assert(one.drop_last() =~= Seq::<Field>::empty());
    assert(own_fields(Seq::<Field>::empty()) =~= Seq::<Field>::empty());
    assert(Seq::<Field>::empty().push(field) =~= one);
    if b.len() == 0 {
        assert(a + b =~= a);
        assert(own_fields(a) + own_fields(b) =~= own_fields(a));
    } else {
        law_own_fields(a, b.drop_last(), field);
        assert((a + b).drop_last() =~= a + b.drop_last());
        assert((a + b).last() == b.last());
        assert(own_fields(a + b) =~= own_fields(a) + own_fields(b));
    }
}

/// The lines that set the cookies of a response stand behind its header fields, in
/// front of the empty line.
pub proof fn law_head_cookies<R>(
    m: ResponseModel<R>,
    keep_alive: bool,
    timeout_secs: nat,
    date: Seq<u8>,
    now: int,
    lines: Seq<u8>,
)
    requires
        m.cookies is Some,
        response_head(
            ResponseModel { cookies: None, ..m },
            keep_alive,
            timeout_secs,
            date,
            now,
        ) == lines + "\r\n".spec_bytes(),
    ensures
        response_head(m, keep_alive, timeout_secs, date, now) == lines + cookie_block(
            m.cookies->Some_0,
            now,
        ) + "\r\n".spec_bytes(),
{
    let bare = ResponseModel { cookies: None, ..m };
    let eol = "\r\n".spec_bytes();
    let front = (m.version + " ".spec_bytes() + m.status.text() + eol) + ("date: ".spec_bytes()
        + date + eol) + keep_alive_text(keep_alive, timeout_secs) + no_content_text(m)
        + field_lines_text(m.fields);
    let whole = response_head(bare, keep_alive, timeout_secs, date, now);
    assert(no_content_text(bare) == no_content_text(m));
    assert(whole == front + Seq::<u8>::empty() + eol);
    assert(whole =~= front + eol);
    assert(front =~= whole.take(whole.len() - eol.len()));
    assert(lines =~= whole.take(whole.len() - eol.len()));
}

/// A request's head is complete with the first empty line in what has come in: it
/// is read, and what follows is left. Without one nothing is taken, and the request
/// is refused where more than 64 KiB have come in and waited for otherwise, after
/// what has been answered has gone out.
pub proof fn law_head_step(
    head: Seq<u8>,
    rest: Seq<u8>,
    unread: Seq<u8>,
    peer: PeerAddress,
    max_body_size: nat,
)
    requires
        first_at(head, "\r\n\r\n".spec_bytes()) == Some(head.len() - 4),
    ensures
        match parse_request(head, peer, max_body_size) {
            Ok(q) => head_step(head + rest, peer, max_body_size) == (
                rest,
                ReadStepModel::Done(Ok(Some(q))),
            ),
            Err(e) => head_step(head + rest, peer, max_body_size) == (
                rest,
                ReadStepModel::Done(Err(e)),
            ),
        },
        !contains(unread, "\r\n\r\n".spec_bytes()) && unread.len() <= 65536 ==> head_step(
            unread,
            peer,
            max_body_size,
        ) == (unread, ReadStepModel::Wait { flush: true }),
        !contains(unread, "\r\n\r\n".spec_bytes()) && unread.len() > 65536 ==> head_step(
            unread,
            peer,
            max_body_size,
        ) == (unread, ReadStepModel::Done(Err(RequestFailure::HeadersTooLarge))),
{
    law_later_requests_kept(head, rest, peer, max_body_size);
    lemma_first_at(head, "\r\n\r\n".spec_bytes());
    assert(head.take(head.len() as int) =~= head);
    lemma_first_at(unread, "\r\n\r\n".spec_bytes());
}

/// It makes no difference in how many pieces a request comes in: bytes that come in
/// after a wait are read as if they had been there before.
pub proof fn law_pieces(
    unread: Seq<u8>,
    phase: ReadPhase,
    data: Vec<u8>,
    peer: PeerAddress,
    max_body_size: nat,
)
    ensures
        event_step(unread, phase, ReadEvent::Data(data), peer, max_body_size) == head_step(
            unread + data@,
            peer,
            max_body_size,
        ),
{
}

/// A wait that ends without bytes takes nothing. Where it failed, the request is
/// refused for that. Where the other end has closed or it took too long, there is
/// no request as long as none has begun; one that has begun is refused.
pub proof fn law_wait_over(
    unread: Seq<u8>,
    phase: ReadPhase,
    event: ReadEvent,
    peer: PeerAddress,
    max_body_size: nat,
)
    requires
        !(event is Data),
    ensures
        ({
            let step = event_step(unread, phase, event, peer, max_body_size);
            &&& step.0 == unread
            &&& event matches ReadEvent::Failed(e) ==> step.1 == ReadStepModel::Done(
                Err(RequestFailure::Io(e)),
            )
            &&& !(event is Failed) && phase == ReadPhase::Idle ==> step.1 == ReadStepModel::Done(
                Ok(None),
            )
            &&& event is TimedOut && phase == ReadPhase::Head ==> step.1 == ReadStepModel::Done(
                Err(RequestFailure::Timeout),
            )
            &&& event is Closed && phase == ReadPhase::Head ==> step.1 == ReadStepModel::Done(
                Err(RequestFailure::Header("EOF before headers finished".spec_bytes())),
            )
        }),
{
}

/// What follows the head of a response that is not suppressed and whose status
/// allows a body: its bytes, as one chunk and the last where it says that it comes
/// in chunks; its stream, in chunks where it says so; and nothing where there is no
/// body.
pub proof fn law_body_sent<R>(m: ResponseModel<R>)
    requires
        !m.suppressed,
        m.status != HttpStatusCode::NoContent,
        m.status != HttpStatusCode::NotModified,
    ensures
        ({
            let coding = field_value(m.fields, "transfer-encoding".spec_bytes());
            let in_chunks = coding matches Some(v) && contains(v, "chunked".spec_bytes());
            &&& m.body is None ==> outgoing_body(m) is Nothing
            &&& m.body matches Some(PayloadModel::Bytes(c)) ==> outgoing_body(m)
                == OutgoingModel::<R>::Whole(
                if in_chunks {
                    chunk(c.bytes) + last_chunk()
                } else {
                    c.bytes
                },
            )
            &&& m.body matches Some(
                PayloadModel::Stream { reader, content_length, content_type },
            ) ==> outgoing_body(m) == (OutgoingModel::Stream { reader, chunked: in_chunks })
        }),
{
}

/// A chunk is its length in hexadecimal digits, a line end, its bytes and a line
/// end; the last is that of length nothing.
pub proof fn law_chunk_text(data: Seq<u8>)
    ensures
        chunk(data) == hexadecimal(data.len()) + seq![13u8, 10u8] + data + seq![13u8, 10u8],
        last_chunk() == chunk(Seq::empty()),
{
    lemma_line_end();
    reveal_strlit("0\r\n\r\n");
    assert(is_ascii("0\r\n\r\n"));
    assert(hexadecimal(0) =~= seq![48u8]);
    assert(last_chunk() =~= chunk(Seq::empty()));
}

/// What a chunk that has come in says, behind its length: one without a length, or
/// without a line end behind its bytes, is refused; one with more bytes than there
/// is room for is refused before they are there; one that is not all there is
/// waited for; and one without bytes ends the body. Only a chunk that is whole is
/// taken.
pub proof fn law_chunk_steps(digits: Seq<u8>, behind: Seq<u8>, room: nat)
    requires
        forall|i: int| 0 <= i < digits.len() ==> #[trigger] digits[i] != 13,
    ensures
        ({
            let s = digits + seq![13u8, 10u8] + behind;
            let step = next_chunk(s, room);
            match hex_number_in(digits, usize::MAX as nat) {
                None => step == (s, ChunkStepModel::Malformed),
                Some(n) => {
                    let whole = behind.len() >= n + 2;
                    let ended = behind[n as int] == 13 && behind[n as int + 1] == 10;
                    &&& n > room ==> step == (s, ChunkStepModel::TooLarge)
                    &&& n <= room && !whole ==> step == (s, ChunkStepModel::Wait)
                    &&& n <= room && whole && !ended ==> step == (s, ChunkStepModel::Malformed)
                    &&& n <= room && whole && ended ==> step == (
                        behind.skip(n as int + 2),
                        if n == 0 {
                            ChunkStepModel::End
                        } else {
                            ChunkStepModel::Data(behind.take(n as int))
                        },
                    )
                },
            }
        }),
{
    lemma_line_end();
    let eol = "\r\n".spec_bytes();
    let s = digits + eol + behind;
    let at = digits.len() as int;
    assert(s.subrange(at, at + 2) =~= eol);
    assert forall|j: int| 0 <= j < at implies !occurs_at(s, eol, j) by {
        if occurs_at(s, eol, j) {
            assert(s.subrange(j, j + 2)[0] == s[j]);
            assert(s[j] == digits[j]);
        }
    }
    lemma_first_is(s, eol, at);
    assert(s.take(at) =~= digits);
    assert(s.skip(at + 2) =~= behind);
    if let Some(n) = hex_number_in(digits, usize::MAX as nat) {
        if behind.len() >= n + 2 {
            let tail = behind.skip(n as int);
            assert(tail[0] == behind[n as int] && tail[1] == behind[n as int + 1]);
            if behind[n as int] == 13 && behind[n as int + 1] == 10 {
                assert(tail.subrange(0, 2) =~= eol);
            } else if eol.is_prefix_of(tail) {
                assert(tail.subrange(0, 2)[0] == tail[0]);
                assert(tail.subrange(0, 2)[1] == tail[1]);
            }
            assert(tail.skip(2) =~= behind.skip(n as int + 2));
        }
    }
}

/// Without a line end nothing is known of a chunk yet: it is waited for.
pub proof fn law_chunk_waits(s: Seq<u8>, room: nat)
    requires
        !contains(s, "\r\n".spec_bytes()),
    ensures
        next_chunk(s, room) == (s, ChunkStepModel::Wait),
{
    lemma_first_at(s, "\r\n".spec_bytes());
}

/// The date that is written is that of the moment, except that within one second
/// it is not written anew.
pub proof fn law_date_of_second(cached_secs: int, cached: Seq<u8>, now_secs: int, stamp: int)
    ensures
        now_secs != cached_secs ==> date_now(cached_secs, cached, now_secs, stamp) == signed_date(
            stamp,
        ),
        now_secs == cached_secs ==> date_now(cached_secs, cached, now_secs, stamp) == cached,
{
}

/// What is to be done next, what follows a head and what a chunk says each stand for
/// themselves.
pub proof fn law_steps<R>(step: ReadStep, body: OutgoingBody<R>, chunk: ChunkStep)
    ensures
        step matches ReadStep::Wait { flush } ==> step@ == (ReadStepModel::Wait { flush }),
        step matches ReadStep::Done(Ok(Some(q))) ==> step@ == ReadStepModel::Done(Ok(Some(q@))),
        step matches ReadStep::Done(Ok(None)) ==> step@ == ReadStepModel::Done(Ok(None)),
        step matches ReadStep::Done(Err(e)) ==> step@ == ReadStepModel::Done(Err(e@)),
        body is Nothing ==> body@ is Nothing,
        body matches OutgoingBody::Whole(b) ==> body@ == OutgoingModel::<R>::Whole(b@),
        body matches OutgoingBody::Stream { reader, chunked } ==> body@ == (
        OutgoingModel::Stream { reader, chunked }),
        chunk is Wait ==> chunk@ is Wait,
        chunk matches ChunkStep::Data(b) ==> chunk@ == ChunkStepModel::Data(octets(b)),
        chunk is End ==> chunk@ is End,
        chunk is TooLarge ==> chunk@ is TooLarge,
        chunk is Malformed ==> chunk@ is Malformed,
{
}

} // verus!

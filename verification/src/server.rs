//! Answering requests.

use crate::active_set::{ActiveModel, ActiveSet};
use crate::body::{Body, Content};
use crate::connection::{outgoing_body, Connection, ConnectionModel, OutgoingModel};
use crate::cookie_store::{cookie_value, optional_text};
use crate::cors::{
    allowed_origin, cors_answer, lacks, lacks_from, law_cors_fields, law_cors_values,
    law_listed_origin, law_preflight_fields, preflight_names, with_cors, Cors, Policy,
};
use crate::field_lines::{
    field_value, law_added_field, law_added_place, law_field_value, Field,
};
use crate::outside::{bytes_clone, bytes_from_str, form_pairs, hyphenated, utf8_pairs};
use crate::request::{
    find_pair, index_of_pair, lemma_pair_index, pair_index, pair_value, query_of, BodyProgress,
    BodyState, HttpMethod, HttpRequest, HttpRequestError, Pair, PeerAddress, RequestFailure,
    RequestModel,
};
use crate::response::{
    fresh_response, lemma_allow_not_reserved, with_header, HttpResponse, HttpResponseBodyInitialized,
    HttpResponseBodyUnInitialized, HttpStatusCode, PayloadModel, ResponseModel,
};
use crate::route_definition::RouteDefinition;
use crate::router::{
    eligible, entries_of, law_most_specific_answers, law_query_ignored, lookup, path_of,
    right_answer, segments_of, str_pairs, Entry, Router,
};
use crate::text::{
    equal_ignoring_case, join, joined, law_same_ignoring_case, lower_all, lower_text, push_text,
    same_ignoring_case, strip, strip_text, text_of, utf8_list,
};
use crate::tls::TlsConfig;
use vstd::prelude::*;
use vstd::string::{is_ascii, StringSliceAdditionalSpecFns};
use vstd::utf8::*;

verus! {

// ── HttpCall ───────────────────────────────────────────────────────────────

/// A request that is being answered.
pub struct HttpCall {
    connection: Connection,
    request: HttpRequest,
    extras: Vec<(String, String)>,
    request_id: u128,
    suppress_body: bool,
}

/// A request that is being answered.
pub struct CallModel {
    pub connection: ConnectionModel,
    pub request: RequestModel,
    pub extras: Seq<Pair>,
    pub id: nat,
    pub suppressed: bool,
}

impl View for HttpCall {
    type V = CallModel;

    closed spec fn view(&self) -> CallModel {
        CallModel {
            connection: self.connection@,
            request: self.request@,
            extras: utf8_pairs(self.extras@),
            id: self.request_id as nat,
            suppressed: self.suppress_body,
        }
    }
}

/// The name under which something is noted: in lower case, without white space
/// around it.
pub open spec fn extras_key(key: Seq<u8>) -> Seq<u8> {
    strip_text(lower_all(key))
}

/// What is noted, with one thing more. What is noted twice under one name is
/// joined by a comma.
pub open spec fn note(extras: Seq<Pair>, name: Seq<u8>, value: Seq<u8>) -> Seq<Pair> {
    let i = pair_index(extras, name);
    if i < extras.len() {
        extras.update(i, (name, extras[i].1 + ", ".spec_bytes() + value))
    } else {
        extras.push((name, value))
    }
}

/// What is noted, without what stands under a name.
pub open spec fn unnote(extras: Seq<Pair>, name: Seq<u8>) -> Seq<Pair> {
    let i = pair_index(extras, name);
    if i < extras.len() {
        extras.remove(i)
    } else {
        extras
    }
}

/// No name occurs twice.
pub open spec fn names_differ(extras: Seq<Pair>) -> bool {
    forall|i: int, j: int|
        0 <= i < j < extras.len() ==> (#[trigger] extras[i]).0 != (#[trigger] extras[j]).0
}

/// What has to be done to have a request's body: nothing, since it was read
/// before; nothing can be done, since reading it was begun before; or it has to
/// be read, after the other end has been told to send it where it waits for
/// that.
pub enum BodyNeed {
    Present,
    Lost,
    Read {
        content_length: usize,
        is_chunked: bool,
        expects_continue: bool,
        content_type: Option<String>,
    },
}

/// Whether a request waits to be told to send its body.
pub open spec fn expects_continue(m: RequestModel) -> bool {
    match field_value(m.fields, "expect".spec_bytes()) {
        Some(v) => same_ignoring_case(v, "100-continue".spec_bytes()),
        None => false,
    }
}

impl HttpCall {
    /// The request is well kept, and nothing is noted under the same name twice.
    pub closed spec fn wf(&self) -> bool {
        &&& self.request.wf()
        &&& names_differ(self@.extras)
    }

    /// A call to answer a request that came in on a connection.
    pub fn new(connection: Connection, request: HttpRequest, request_id: u128) -> (r: HttpCall)
        requires
            request.wf(),
        ensures
            r.wf(),
            r@ == (CallModel {
                connection: connection@,
                request: request@,
                extras: Seq::empty(),
                id: request_id as nat,
                suppressed: false,
            }),
    {
        let r = HttpCall {
            connection,
            request,
            extras: Vec::new(),
            request_id,
            suppress_body: false,
        };
        assert(r@.extras =~= Seq::<Pair>::empty());
        r
    }

    pub fn method(&self) -> (r: &HttpMethod)
        ensures
            *r == self@.request.method,
    {
        self.request.method()
    }

    /// The other end's address, where it is one of version 4.
    pub fn client_ipv4_address(&self) -> (r: Option<u32>)
        ensures
            r == (match self@.request.peer {
                PeerAddress::V4(a) => Some(a),
                PeerAddress::V6(_) => None,
            }),
    {
        self.request.client_ipv4_address()
    }

    /// The other end's address, where it is one of version 6.
    pub fn client_ipv6_address(&self) -> (r: Option<u128>)
        ensures
            r == (match self@.request.peer {
                PeerAddress::V4(_) => None,
                PeerAddress::V6(a) => Some(a),
            }),
    {
        self.request.client_ipv6_address()
    }

    pub fn host(&self) -> (r: Option<&str>)
        ensures
            match r {
                Some(s) => self@.request.host == Some(s.spec_bytes()),
                None => self@.request.host is None,
            },
    {
        self.request.host()
    }

    pub fn route(&self) -> (r: &str)
        ensures
            r.spec_bytes() == self@.request.route,
    {
        self.request.route()
    }

    /// The value of the header field called `name` in any case.
    pub fn header(&self, name: &str) -> (r: Option<&str>)
        requires
            self.wf(),
        ensures
            match r {
                Some(v) => field_value(self@.request.fields, name.spec_bytes()) == Some(
                    v.spec_bytes(),
                ),
                None => field_value(self@.request.fields, name.spec_bytes()) is None,
            },
    {
        self.request.header(name)
    }

    pub fn cookie(&self, name: &str) -> (r: Option<&str>)
        ensures
            match r {
                Some(v) => cookie_value(self@.request.cookies, name.spec_bytes()) == Some(
                    v.spec_bytes(),
                ),
                None => cookie_value(self@.request.cookies, name.spec_bytes()) is None,
            },
    {
        self.request.cookie(name)
    }

    pub fn request_id(&self) -> (r: u128)
        ensures
            r == self@.id,
    {
        self.request_id
    }

    /// The value of the first parameter of the matched route called
    /// `param_name`.
    pub fn path_param(&self, param_name: &str) -> (r: Option<&str>)
        ensures
            match r {
                Some(v) => pair_value(self@.request.path_params, param_name.spec_bytes()) == Some(
                    v.spec_bytes(),
                ),
                None => pair_value(self@.request.path_params, param_name.spec_bytes()) is None,
            },
    {
        self.request.path_param(param_name)
    }

    /// The value of the first parameter of the route's query called
    /// `param_name`.
    pub fn query_param(&self, param_name: &str) -> (r: Option<&str>)
        requires
            self.wf(),
        ensures
            match r {
                Some(v) => pair_value(
                    form_pairs(query_of(self@.request.route)),
                    param_name.spec_bytes(),
                ) == Some(v.spec_bytes()),
                None => pair_value(
                    form_pairs(query_of(self@.request.route)),
                    param_name.spec_bytes(),
                ) is None,
            },
    {
        self.request.query_param(param_name)
    }

    /// Notes a value under a name.
    pub fn set_extras(&mut self, key: &str, value: &str)
        requires
            old(self).wf(),
        ensures
            final(self).wf(),
            final(self)@ == (CallModel {
                extras: note(old(self)@.extras, extras_key(key.spec_bytes()), value.spec_bytes()),
                ..old(self)@
            }),
    {
        let ghost before = self@.extras;
        let lower: String = lower_text(key);
        let name: String = strip(lower.as_str()).to_owned();
        let ghost stored = encode_utf8(name@);
        let i: usize = index_of_pair(&self.extras, name.as_str());
        proof {
            lemma_pair_index(before, stored);
        }
        if i < self.extras.len() {
            let mut text: Vec<u8> = Vec::new();
            push_text(&mut text, self.extras[i].1.as_str());
            push_text(&mut text, ", ");
            push_text(&mut text, value);
            assert(text@ =~= before[i as int].1 + ", ".spec_bytes() + value.spec_bytes());
            self.extras.set(i, (name, text_of(text)));
            assert(self@.extras =~= note(before, stored, value.spec_bytes()));
        } else {
            self.extras.push((name, value.to_owned()));
            assert(self@.extras =~= note(before, stored, value.spec_bytes()));
        }
    }

    /// What is noted under a name.
    pub fn get_extras(&self, key: &str) -> (r: Option<&str>)
        ensures
            match r {
                Some(v) => pair_value(self@.extras, key.spec_bytes()) == Some(v.spec_bytes()),
                None => pair_value(self@.extras, key.spec_bytes()) is None,
            },
    {
        find_pair(&self.extras, key)
    }

    /// Takes out what is noted under a name.
    pub fn remove_extras(&mut self, key: &str) -> (r: Option<String>)
        requires
            old(self).wf(),
        ensures
            final(self).wf(),
            final(self)@ == (CallModel {
                extras: unnote(old(self)@.extras, key.spec_bytes()),
                ..old(self)@
            }),
            match r {
                Some(v) => pair_value(old(self)@.extras, key.spec_bytes()) == Some(encode_utf8(v@)),
                None => pair_value(old(self)@.extras, key.spec_bytes()) is None,
            },
    {
        let ghost before = self@.extras;
        proof {
            lemma_pair_index(before, key.spec_bytes());
        }
        let i: usize = index_of_pair(&self.extras, key);
        if i < self.extras.len() {
            let entry = self.extras.remove(i);
            assert(self@.extras =~= before.remove(i as int));
            assert((encode_utf8(entry.0@), encode_utf8(entry.1@)) == before[i as int]);
            Some(entry.1)
        } else {
            None
        }
    }

    /// Begins to read the body: says what has to be done, and that it is being
    /// done.
    pub fn body(&mut self) -> (r: BodyNeed)
        requires
            old(self).wf(),
        ensures
            final(self).wf(),
            match old(self)@.request.body {
                BodyProgress::Read(_) => r is Present && final(self)@ == old(self)@,
                BodyProgress::Reading => r is Lost && final(self)@ == old(self)@,
                BodyProgress::Unread { content_length, chunked } => {
                    &&& r matches BodyNeed::Read {
                        content_length: n,
                        is_chunked,
                        expects_continue: waits,
                        content_type,
                    }
                    &&& n == content_length
                    &&& is_chunked == chunked
                    &&& waits == expects_continue(old(self)@.request)
                    &&& optional_text(content_type) == field_value(
                        old(self)@.request.fields,
                        "content-type".spec_bytes(),
                    )
                    &&& final(self)@ == (CallModel {
                        request: RequestModel {
                            body: BodyProgress::Reading,
                            ..old(self)@.request
                        },
                        ..old(self)@
                    })
                },
            },
    {
        let (content_length, is_chunked): (usize, bool) = match self.request.body_state() {
            BodyState::Read(_) => return BodyNeed::Present,
            BodyState::Reading => return BodyNeed::Lost,
            BodyState::Unread { content_length, is_chunked } => (*content_length, *is_chunked),
        };
        let expects_continue: bool = match self.header("expect") {
            Some(v) => equal_ignoring_case(v.as_bytes(), "100-continue".as_bytes()),
            None => false,
        };
        let content_type: Option<String> = match self.header("content-type") {
            Some(v) => Some(v.to_owned()),
            None => None,
        };
        self.request.set_body_state(BodyState::Reading);
        BodyNeed::Read { content_length, is_chunked, expects_continue, content_type }
    }

    /// Keeps the body that has been read.
    pub fn set_body(&mut self, body: Body)
        requires
            old(self).wf(),
        ensures
            final(self).wf(),
            final(self)@ == (CallModel {
                request: RequestModel { body: BodyProgress::Read(body@), ..old(self)@.request },
                ..old(self)@
            }),
    {
        self.request.set_body_state(BodyState::Read(body));
    }

    /// The body, where it has been read.
    pub fn read_body(&self) -> (r: Option<&Body>)
        ensures
            match r {
                Some(b) => self@.request.body == BodyProgress::Read(b@),
                None => !(self@.request.body is Read),
            },
    {
        match self.request.body_state() {
            BodyState::Read(b) => Some(b),
            _ => None,
        }
    }

    /// How many bytes a body may have.
    pub fn max_body_size(&self) -> (r: usize)
        ensures
            r == self@.request.max_body_size,
    {
        self.request.max_body_size()
    }

    pub fn response_sent(&self) -> (r: bool)
        ensures
            r == self@.connection.answered,
    {
        self.connection.has_written_response()
    }

    /// Keeps the body of the response from being sent.
    pub fn set_suppress_body(&mut self)
        requires
            old(self).wf(),
        ensures
            final(self).wf(),
            final(self)@ == (CallModel { suppressed: true, ..old(self)@ }),
    {
        self.suppress_body = true;
    }

    /// Sets what the matched route's pattern gave names to.
    pub fn set_path_params(&mut self, params: Vec<(String, String)>)
        requires
            old(self).wf(),
        ensures
            final(self).wf(),
            final(self)@ == (CallModel {
                request: RequestModel {
                    path_params: utf8_pairs(params@),
                    ..old(self)@.request
                },
                ..old(self)@
            }),
    {
        self.request.set_path_params(params);
    }

    /// The connection that the call came in on.
    pub fn connection(&mut self) -> (r: &mut Connection)
        requires
            old(self).wf(),
        ensures
            r@ == old(self)@.connection,
            final(self).wf(),
            final(self)@ == (CallModel { connection: final(r)@, ..old(self)@ }),
    {
        &mut self.connection
    }

    /// A fresh response to the call.
    pub fn response<R>(&self) -> (r: HttpResponse<HttpResponseBodyUnInitialized, R>)
        ensures
            r.wf(),
            r@ == call_response::<R>(self@),
    {
        let response = HttpResponse::new(
            bytes_clone(self.request.http_version()),
            self.request_id,
            self.request.route().to_owned(),
        );
        if self.suppress_body {
            response.suppress_body()
        } else {
            response
        }
    }
}

/// A fresh response to a call.
pub open spec fn call_response<R>(m: CallModel) -> ResponseModel<R> {
    ResponseModel {
        suppressed: m.suppressed,
        ..fresh_response(m.request.version, m.id, m.request.route)
    }
}

// ── RequestInfo ────────────────────────────────────────────────────────────

/// A moment: seconds since the start of 1970, and nanoseconds.
#[derive(Debug, Clone, Copy, PartialEq, Eq, Structural)]
pub struct Moment {
    pub secs: i64,
    pub nanos: u32,
}

/// What is known of a request that is being answered or has been.
#[derive(Clone, Debug)]
pub struct RequestInfo {
    id: u128,
    route: String,
    method: HttpMethod,
    response_status: Option<HttpStatusCode>,
    started_at: Moment,
    ended_at: Option<Moment>,
}

/// What is known of a request that is being answered or has been.
pub struct InfoModel {
    pub id: u128,
    pub route: Seq<u8>,
    pub method: HttpMethod,
    pub status: Option<HttpStatusCode>,
    pub started_at: Moment,
    pub ended_at: Option<Moment>,
}

impl View for RequestInfo {
    type V = InfoModel;

    closed spec fn view(&self) -> InfoModel {
        InfoModel {
            id: self.id,
            route: encode_utf8(self.route@),
            method: self.method,
            status: self.response_status,
            started_at: self.started_at,
            ended_at: self.ended_at,
        }
    }
}

impl RequestInfo {
    /// A request that begins to be answered at the moment `now`.
    pub fn new(id: u128, route: &str, method: HttpMethod, now: Moment) -> (r: RequestInfo)
        ensures
            r@ == (InfoModel {
                id,
                route: route.spec_bytes(),
                method,
                status: None,
                started_at: now,
                ended_at: None,
            }),
    {
        RequestInfo {
            id,
            route: route.to_owned(),
            method,
            response_status: None,
            started_at: now,
            ended_at: None,
        }
    }

    pub fn id(&self) -> (r: u128)
        ensures
            r == self@.id,
    {
        self.id
    }

    pub fn method(&self) -> (r: &HttpMethod)
        ensures
            *r == self@.method,
    {
        &self.method
    }

    pub fn route(&self) -> (r: &str)
        ensures
            r.spec_bytes() == self@.route,
    {
        self.route.as_str()
    }

    pub fn response_status(&self) -> (r: Option<HttpStatusCode>)
        ensures
            r == self@.status,
    {
        self.response_status
    }

    pub fn started_at(&self) -> (r: Moment)
        ensures
            r == self@.started_at,
    {
        self.started_at
    }

    pub fn ended_at(&self) -> (r: Option<Moment>)
        ensures
            r == self@.ended_at,
    {
        self.ended_at
    }

    pub fn set_response_status(&mut self, status: HttpStatusCode)
        ensures
            final(self)@ == (InfoModel { status: Some(status), ..old(self)@ }),
    {
        self.response_status = Some(status);
    }

    pub fn mark_as_end(&mut self, now: Moment)
        ensures
            final(self)@ == (InfoModel { ended_at: Some(now), ..old(self)@ }),
    {
        self.ended_at = Some(now);
    }

    /// The request once a response has been sent at the moment `now`.
    pub fn completed(self, status: HttpStatusCode, now: Moment) -> (r: RequestInfo)
        ensures
            r@ == (InfoModel { status: Some(status), ended_at: Some(now), ..self@ }),
    {
        let mut info = self;
        info.set_response_status(status);
        info.mark_as_end(now);
        info
    }
}

/// The requests that are being answered.
pub type ActiveRequest = ActiveSet<RequestInfo>;

// ── Requests that cannot be read ───────────────────────────────────────────

/// The status that answers a request that could not be read.
pub open spec fn refusal_status(f: RequestFailure) -> HttpStatusCode {
    match f {
        RequestFailure::PayloadTooLarge => HttpStatusCode::ContentTooLarge,
        RequestFailure::RequestLineTooLong => HttpStatusCode::UriTooLong,
        RequestFailure::HeadersTooLarge => HttpStatusCode::RequestHeaderFieldsTooLarge,
        RequestFailure::Timeout => HttpStatusCode::RequestTimeout,
        _ => HttpStatusCode::BadRequest,
    }
}

/// The answer to a request that could not be read.
pub fn refusal<R>(error: &HttpRequestError, request_id: u128) -> (r: HttpResponse<
    HttpResponseBodyInitialized,
    R,
>)
    ensures
        r.wf(),
        r@ == (ResponseModel {
            status: refusal_status(error@),
            ..fresh_response::<R>("HTTP/1.1".spec_bytes(), request_id as nat, Seq::empty())
        }),
{
    let status = match error {
        HttpRequestError::PayloadTooLarge => HttpStatusCode::ContentTooLarge,
        HttpRequestError::RequestLineTooLong => HttpStatusCode::UriTooLong,
        HttpRequestError::HeadersTooLarge => HttpStatusCode::RequestHeaderFieldsTooLarge,
        HttpRequestError::Timeout => HttpStatusCode::RequestTimeout,
        _ => HttpStatusCode::BadRequest,
    };
    let path = String::new();
    assert(encode_utf8(path@) =~= Seq::<u8>::empty());
    HttpResponse::new(bytes_from_str("HTTP/1.1"), request_id, path).status_code(status).empty()
}

// ── HttpServer ─────────────────────────────────────────────────────────────

/// A span of time.
#[derive(Debug, Clone, Copy, PartialEq, Eq, Structural)]
pub struct Timespan {
    pub secs: u64,
    pub nanos: u32,
}

/// What a server answers requests by. `H` is what answers a request on a route,
/// `C` what is told of each answered request.
pub struct HttpServer<H, C> {
    router: Router<H>,
    on_request_complete: Option<C>,
    cors: Option<Cors>,
    request_timeout: Timespan,
    keep_alive_timeout: Timespan,
    restart_stability_window: Timespan,
    restart_pre_hook_timeout: Timespan,
    max_body_size: usize,
}

/// What a server answers requests by.
pub struct ServerModel<H, C> {
    pub routes: Seq<Entry<H>>,
    pub on_request_complete: Option<C>,
    pub policy: Option<Policy>,
    pub request_timeout: Timespan,
    pub keep_alive_timeout: Timespan,
    pub restart_stability_window: Timespan,
    pub restart_pre_hook_timeout: Timespan,
    pub max_body_size: nat,
}

pub open spec fn optional_policy(cors: Option<Cors>) -> Option<Policy> {
    match cors {
        Some(c) => Some(c@),
        None => None,
    }
}

impl<H, C> View for HttpServer<H, C> {
    type V = ServerModel<H, C>;

    closed spec fn view(&self) -> ServerModel<H, C> {
        ServerModel {
            routes: self.router@,
            on_request_complete: self.on_request_complete,
            policy: optional_policy(self.cors),
            request_timeout: self.request_timeout,
            keep_alive_timeout: self.keep_alive_timeout,
            restart_stability_window: self.restart_stability_window,
            restart_pre_hook_timeout: self.restart_pre_hook_timeout,
            max_body_size: self.max_body_size as nat,
        }
    }
}

/// Whether a request leaves the connection open.
pub open spec fn wants_keep_alive(m: RequestModel) -> bool {
    match field_value(m.fields, "connection".spec_bytes()) {
        Some(v) => !same_ignoring_case(v, "close".spec_bytes()),
        None => true,
    }
}

/// The method by which a route is looked up: a request for the head alone goes
/// by the route for the whole.
pub open spec fn route_method(method: HttpMethod) -> HttpMethod {
    if method == HttpMethod::HEAD {
        HttpMethod::GET
    } else {
        method
    }
}

/// Whether a route for `method` fits a path.
pub open spec fn answers<H>(routes: Seq<Entry<H>>, method: HttpMethod, route: Seq<u8>) -> bool {
    lookup(routes, method, path_of(route)) is Some
}

/// A list with a name behind it where `on` holds.
pub open spec fn name_if(names: Seq<Seq<u8>>, on: bool, name: Seq<u8>) -> Seq<Seq<u8>> {
    if on {
        names.push(name)
    } else {
        names
    }
}

/// The names of the methods for which a route fits a path.
pub open spec fn allowed_methods<H>(routes: Seq<Entry<H>>, route: Seq<u8>) -> Seq<Seq<u8>> {
    let get = answers(routes, HttpMethod::GET, route);
    let a = name_if(Seq::empty(), get, HttpMethod::GET.name());
    let b = name_if(a, answers(routes, HttpMethod::POST, route), HttpMethod::POST.name());
    let c = name_if(b, answers(routes, HttpMethod::PUT, route), HttpMethod::PUT.name());
    let d = name_if(c, answers(routes, HttpMethod::DELETE, route), HttpMethod::DELETE.name());
    let e = name_if(d, answers(routes, HttpMethod::PATCH, route), HttpMethod::PATCH.name());
    name_if(e, get, HttpMethod::HEAD.name())
}

/// The answer to a request that no route fits: that there is nothing, or, where
/// another method would have fitted, which.
pub open spec fn unmatched_answer<H, C, R>(s: ServerModel<H, C>, call: CallModel) -> ResponseModel<
    R,
> {
    let q = call.request;
    let fresh = fresh_response::<R>(q.version, call.id, q.route);
    let resp = ResponseModel {
        fields: match s.policy {
            Some(p) => with_cors(p, q, fresh.fields),
            None => fresh.fields,
        },
        ..fresh
    };
    let allowed = allowed_methods(s.routes, q.route);
    if allowed.len() == 0 {
        ResponseModel { status: HttpStatusCode::NotFound, ..resp }
    } else {
        with_header(
            ResponseModel { status: HttpStatusCode::MethodNotAllowed, ..resp },
            "allow".spec_bytes(),
            joined(allowed, ", ".spec_bytes()),
        )
    }
}

/// What is done about a request: a preflight is answered, a request that no
/// route fits is answered, and any other goes to its route.
pub enum Plan<'a, H, R> {
    Preflight(HttpResponse<HttpResponseBodyInitialized, R>),
    Unmatched(HttpResponse<HttpResponseBodyInitialized, R>),
    Dispatch(&'a RouteDefinition<H>),
}

/// What is done about a request.
pub enum PlanModel<H, R> {
    Preflight(ResponseModel<R>),
    Unmatched(ResponseModel<R>),
    Dispatch(RouteDefinition<H>),
}

impl<'a, H, R> View for Plan<'a, H, R> {
    type V = PlanModel<H, R>;

    open spec fn view(&self) -> PlanModel<H, R> {
        match self {
            Plan::Preflight(r) => PlanModel::Preflight(r@),
            Plan::Unmatched(r) => PlanModel::Unmatched(r@),
            Plan::Dispatch(route) => PlanModel::Dispatch(**route),
        }
    }
}

impl<'a, H, R> Plan<'a, H, R> {
    /// A response that is handed out is well kept.
    pub open spec fn wf(&self) -> bool {
        match self {
            Plan::Preflight(r) => r.wf(),
            Plan::Unmatched(r) => r.wf(),
            Plan::Dispatch(_) => true,
        }
    }
}

/// The call after it has been planned, and the plan.
pub open spec fn planned<H, C, R>(s: ServerModel<H, C>, call: CallModel) -> (
    CallModel,
    PlanModel<H, R>,
) {
    let q = call.request;
    let tried = CallModel {
        suppressed: call.suppressed || q.method == HttpMethod::HEAD,
        ..call
    };
    if s.policy is Some && q.method == HttpMethod::OPTIONS {
        (
            call,
            PlanModel::Preflight(
                cors_answer(s.policy->Some_0, q, call_response::<R>(call), true)->Some_0,
            ),
        )
    } else {
        match lookup(s.routes, route_method(q.method), path_of(q.route)) {
            None => (tried, PlanModel::Unmatched(unmatched_answer(s, tried))),
            Some(m) => (
                CallModel { request: RequestModel { path_params: m.1, ..q }, ..tried },
                PlanModel::Dispatch(m.0),
            ),
        }
    }
}

/// The texts of pairs, as strings.
fn owned_pairs(pairs: &Vec<(&str, &str)>) -> (r: Vec<(String, String)>)
    ensures
        utf8_pairs(r@) == str_pairs(pairs@),
{
    let mut r: Vec<(String, String)> = Vec::new();
    for i in 0..pairs.len()
        invariant
            r@.len() == i,
            forall|j: int|
                0 <= j < i ==> encode_utf8((#[trigger] r@[j]).0@) == pairs@[j].0.spec_bytes()
                    && encode_utf8(r@[j].1@) == pairs@[j].1.spec_bytes(),
    {
        r.push((pairs[i].0.to_owned(), pairs[i].1.to_owned()));
    }
    assert(utf8_pairs(r@) =~= str_pairs(pairs@));
    r
}

impl<H, C> HttpServer<H, C> {
    /// The routes are well kept.
    pub closed spec fn wf(&self) -> bool {
        self.router.wf()
    }

    /// Starts to put a server together.
    pub fn builder(port: u16, registered: Vec<RouteDefinition<H>>) -> (r: HttpServerBuilder<H, C>)
        ensures
            r@ == default_builder::<H, C>(port, registered@),
    {
        HttpServerBuilder::new(port, registered)
    }

    /// Decides whether the connection stays open after a call, and has the
    /// connection say so.
    pub fn keep_alive(&self, call: &mut HttpCall) -> (r: bool)
        requires
            old(call).wf(),
        ensures
            final(call).wf(),
            r == wants_keep_alive(old(call)@.request),
            final(call)@ == (CallModel {
                connection: ConnectionModel {
                    keep_alive: r,
                    timeout_secs: self@.keep_alive_timeout.secs as nat,
                    ..old(call)@.connection
                },
                ..old(call)@
            }),
    {
        let keep_alive: bool = match call.header("connection") {
            Some(v) => !equal_ignoring_case(v.as_bytes(), "close".as_bytes()),
            None => true,
        };
        call.connection().set_keep_alive(keep_alive, self.keep_alive_timeout.secs);
        keep_alive
    }

    /// Whether a route for `method` fits the call's path.
    fn has_route(&self, method: HttpMethod, call: &HttpCall) -> (r: bool)
        requires
            self.wf(),
        ensures
            r == answers(self@.routes, method, call@.request.route),
    {
        self.router.find(&method, call.route()).is_some()
    }

    /// The names of the methods for which a route fits the call's path.
    fn allowed_methods(&self, call: &HttpCall) -> (r: Vec<String>)
        requires
            self.wf(),
        ensures
            utf8_list(r@) == allowed_methods(self@.routes, call@.request.route),
    {
        let mut names: Vec<String> = Vec::new();
        assert(utf8_list(names@) =~= Seq::<Seq<u8>>::empty());
        let get = self.has_route(HttpMethod::GET, call);
        push_name(&mut names, get, HttpMethod::GET);
        push_name(&mut names, self.has_route(HttpMethod::POST, call), HttpMethod::POST);
        push_name(&mut names, self.has_route(HttpMethod::PUT, call), HttpMethod::PUT);
        push_name(&mut names, self.has_route(HttpMethod::DELETE, call), HttpMethod::DELETE);
        push_name(&mut names, self.has_route(HttpMethod::PATCH, call), HttpMethod::PATCH);
        push_name(&mut names, get, HttpMethod::HEAD);
        names
    }

    /// Adds what the server's policy, if it has one, says to a call.
    fn apply_cors_to_uninit<R>(
        &self,
        call: &HttpCall,
        resp: HttpResponse<HttpResponseBodyUnInitialized, R>,
    ) -> (r: HttpResponse<HttpResponseBodyUnInitialized, R>)
        requires
            call.wf(),
            resp.wf(),
        ensures
            r.wf(),
            r@ == (ResponseModel {
                fields: match self@.policy {
                    Some(p) => with_cors(p, call@.request, resp@.fields),
                    None => resp@.fields,
                },
                ..resp@
            }),
    {
        match &self.cors {
            Some(cors) => cors.add_cors_headers(call, resp),
            None => resp,
        }
    }

    /// The answer to a call that no route fits.
    fn unmatched<R>(&self, call: &HttpCall) -> (r: HttpResponse<HttpResponseBodyInitialized, R>)
        requires
            self.wf(),
            call.wf(),
        ensures
            r.wf(),
            r@ == unmatched_answer::<H, C, R>(self@, call@),
    {
        let fresh = HttpResponse::new(
            bytes_clone(call.request.http_version()),
            call.request_id,
            call.route().to_owned(),
        );
        let resp = self.apply_cors_to_uninit(call, fresh);
        let names: Vec<String> = self.allowed_methods(call);
        if names.len() == 0 {
            resp.status_code(HttpStatusCode::NotFound).empty()
        } else {
            resp.status_code(HttpStatusCode::MethodNotAllowed).add_header(
                "allow",
                join(&names, ", ").as_str(),
            ).empty()
        }
    }

    /// Says what is done about a call.
    pub fn plan<R>(&self, call: &mut HttpCall) -> (r: Plan<'_, H, R>)
        requires
            self.wf(),
            old(call).wf(),
        ensures
            final(call).wf(),
            r.wf(),
            planned::<H, C, R>(self@, old(call)@) == (final(call)@, r@),
    {
        let method: HttpMethod = *call.method();
        if let Some(cors) = &self.cors {
            if method == HttpMethod::OPTIONS {
                return Plan::Preflight(cors.handle_preflight(call).empty());
            }
        }
        if method == HttpMethod::HEAD {
            call.set_suppress_body();
        }
        let wanted: HttpMethod = if method == HttpMethod::HEAD { HttpMethod::GET } else { method };
        let route_text: String = call.route().to_owned();
        match self.router.find(&wanted, route_text.as_str()) {
            None => Plan::Unmatched(self.unmatched(call)),
            Some(found) => {
                call.set_path_params(owned_pairs(&found.params));
                Plan::Dispatch(found.route)
            },
        }
    }

    /// Counts the requests that are being answered, and keeps what is known of
    /// them where someone is told of each.
    pub fn new_active_set(&self) -> (r: ActiveSet<RequestInfo>)
        ensures
            r@ == (ActiveModel::<RequestInfo> {
                count: 0,
                known: if self@.on_request_complete is Some {
                    Some(Map::empty())
                } else {
                    None
                },
            }),
    {
        ActiveSet::new_with_telemetry(self.on_request_complete.is_some())
    }

    pub fn on_request_complete(&self) -> (r: Option<&C>)
        ensures
            match r {
                Some(c) => self@.on_request_complete == Some(*c),
                None => self@.on_request_complete is None,
            },
    {
        self.on_request_complete.as_ref()
    }

    pub fn request_timeout(&self) -> (r: Timespan)
        ensures
            r == self@.request_timeout,
    {
        self.request_timeout
    }

    pub fn keep_alive_timeout(&self) -> (r: Timespan)
        ensures
            r == self@.keep_alive_timeout,
    {
        self.keep_alive_timeout
    }

    pub fn restart_stability_window(&self) -> (r: Timespan)
        ensures
            r == self@.restart_stability_window,
    {
        self.restart_stability_window
    }

    pub fn restart_pre_hook_timeout(&self) -> (r: Timespan)
        ensures
            r == self@.restart_pre_hook_timeout,
    {
        self.restart_pre_hook_timeout
    }

    pub fn max_body_size(&self) -> (r: usize)
        ensures
            r == self@.max_body_size,
    {
        self.max_body_size
    }
}

/// Adds a method's name to a list where `on` holds.
fn push_name(names: &mut Vec<String>, on: bool, method: HttpMethod)
    ensures
        utf8_list(final(names)@) == name_if(utf8_list(old(names)@), on, method.name()),
{
    let ghost before = utf8_list(names@);
    if on {
        names.push(method.as_str().to_owned());
        assert(utf8_list(names@) =~= before.push(method.name()));
    }
}

/// What comes next for a call on its route.
#[derive(Debug, Clone, Copy, PartialEq, Eq, Structural)]
pub enum Stage {
    Middleware(usize),
    Handler,
    Finish,
}

/// What comes next for a call on a route with `total` handlers before its own,
/// of which `done` have run: nothing where the last of them has answered, and
/// otherwise the next of them or, behind them, the route's own.
pub open spec fn stage_after(done: int, total: int, answered: bool) -> Stage {
    if done > 0 && answered {
        Stage::Finish
    } else if done < total {
        Stage::Middleware(done as usize)
    } else {
        Stage::Handler
    }
}

/// What comes next for a call on a route with `total` handlers before its own,
/// of which `done` have run.
pub fn next_stage(done: usize, total: usize, call: &HttpCall) -> (r: Stage)
    ensures
        r == stage_after(done as int, total as int, call@.connection.answered),
{
    if done > 0 && call.response_sent() {
        Stage::Finish
    } else if done < total {
        Stage::Middleware(done)
    } else {
        Stage::Handler
    }
}

// ── HttpServerBuilder ──────────────────────────────────────────────────────

/// Collects what makes a server.
pub struct HttpServerBuilder<H, C> {
    port: u16,
    cors: Option<Cors>,
    tls_config: Option<TlsConfig>,
    request_timeout: Timespan,
    keep_alive_timeout: Timespan,
    max_body_size: usize,
    on_request_complete: Option<C>,
    router: Vec<RouteDefinition<H>>,
    restart_stability_window: Timespan,
    restart_pre_hook_timeout: Timespan,
}

/// What a builder has collected.
pub struct BuilderModel<H, C> {
    pub port: u16,
    pub policy: Option<Policy>,
    pub tls_config: Option<TlsConfig>,
    pub request_timeout: Timespan,
    pub keep_alive_timeout: Timespan,
    pub max_body_size: usize,
    pub on_request_complete: Option<C>,
    pub routes: Seq<RouteDefinition<H>>,
    pub restart_stability_window: Timespan,
    pub restart_pre_hook_timeout: Timespan,
}

impl<H, C> View for HttpServerBuilder<H, C> {
    type V = BuilderModel<H, C>;

    closed spec fn view(&self) -> BuilderModel<H, C> {
        BuilderModel {
            port: self.port,
            policy: optional_policy(self.cors),
            tls_config: self.tls_config,
            request_timeout: self.request_timeout,
            keep_alive_timeout: self.keep_alive_timeout,
            max_body_size: self.max_body_size,
            on_request_complete: self.on_request_complete,
            routes: self.router@,
            restart_stability_window: self.restart_stability_window,
            restart_pre_hook_timeout: self.restart_pre_hook_timeout,
        }
    }
}

/// A server on a port: requests have a minute to come in, connections stay open
/// for 75 seconds, bodies have up to 10 MiB.
pub open spec fn default_builder<H, C>(port: u16, routes: Seq<RouteDefinition<H>>) -> BuilderModel<
    H,
    C,
> {
    BuilderModel {
        port,
        policy: None,
        tls_config: None,
        request_timeout: Timespan { secs: 60, nanos: 0 },
        keep_alive_timeout: Timespan { secs: 75, nanos: 0 },
        max_body_size: 10485760,
        on_request_complete: None,
        routes,
        restart_stability_window: Timespan { secs: 5, nanos: 0 },
        restart_pre_hook_timeout: Timespan { secs: 30, nanos: 0 },
    }
}

impl<H, C> HttpServerBuilder<H, C> {
    /// A server on a port, with the routes that have been registered.
    pub fn new(port: u16, registered: Vec<RouteDefinition<H>>) -> (r: Self)
        ensures
            r@ == default_builder::<H, C>(port, registered@),
    {
        HttpServerBuilder {
            port,
            cors: None,
            tls_config: None,
            request_timeout: Timespan { secs: 60, nanos: 0 },
            keep_alive_timeout: Timespan { secs: 75, nanos: 0 },
            max_body_size: 10485760,
            on_request_complete: None,
            router: registered,
            restart_stability_window: Timespan { secs: 5, nanos: 0 },
            restart_pre_hook_timeout: Timespan { secs: 30, nanos: 0 },
        }
    }

    pub fn cors(self, cors: Cors) -> (r: Self)
        ensures
            r@ == (BuilderModel { policy: Some(cors@), ..self@ }),
    {
        let mut b = self;
        b.cors = Some(cors);
        b
    }

    pub fn tls(self, tls_config: TlsConfig) -> (r: Self)
        ensures
            r@ == (BuilderModel { tls_config: Some(tls_config), ..self@ }),
    {
        let mut b = self;
        b.tls_config = Some(tls_config);
        b
    }

    pub fn request_timeout(self, duration: Timespan) -> (r: Self)
        ensures
            r@ == (BuilderModel { request_timeout: duration, ..self@ }),
    {
        let mut b = self;
        b.request_timeout = duration;
        b
    }

    pub fn keep_alive_timeout(self, duration: Timespan) -> (r: Self)
        ensures
            r@ == (BuilderModel { keep_alive_timeout: duration, ..self@ }),
    {
        let mut b = self;
        b.keep_alive_timeout = duration;
        b
    }

    pub fn max_body_size(self, bytes: usize) -> (r: Self)
        ensures
            r@ == (BuilderModel { max_body_size: bytes, ..self@ }),
    {
        let mut b = self;
        b.max_body_size = bytes;
        b
    }

    /// Has `f` told of each answered request.
    pub fn on_request_complete(self, f: C) -> (r: Self)
        ensures
            r@ == (BuilderModel { on_request_complete: Some(f), ..self@ }),
    {
        let mut b = self;
        b.on_request_complete = Some(f);
        b
    }

    /// Adds a route.
    pub fn route(self, route_definition: RouteDefinition<H>) -> (r: Self)
        ensures
            r@ == (BuilderModel { routes: self@.routes.push(route_definition), ..self@ }),
    {
        let mut b = self;
        b.router.push(route_definition);
        b
    }

    pub fn restart_stability_window(self, duration: Timespan) -> (r: Self)
        ensures
            r@ == (BuilderModel { restart_stability_window: duration, ..self@ }),
    {
        let mut b = self;
        b.restart_stability_window = duration;
        b
    }

    pub fn restart_pre_hook_timeout(self, duration: Timespan) -> (r: Self)
        ensures
            r@ == (BuilderModel { restart_pre_hook_timeout: duration, ..self@ }),
    {
        let mut b = self;
        b.restart_pre_hook_timeout = duration;
        b
    }

    pub fn port(&self) -> (r: u16)
        ensures
            r == self@.port,
    {
        self.port
    }

    /// The server, and where its certificate comes from if it has one.
    pub fn build(self) -> (r: (HttpServer<H, C>, Option<TlsConfig>))
        ensures
            r.0.wf(),
            r.0@ == (ServerModel {
                routes: entries_of(self@.routes),
                on_request_complete: self@.on_request_complete,
                policy: self@.policy,
                request_timeout: self@.request_timeout,
                keep_alive_timeout: self@.keep_alive_timeout,
                restart_stability_window: self@.restart_stability_window,
                restart_pre_hook_timeout: self@.restart_pre_hook_timeout,
                max_body_size: self@.max_body_size as nat,
            }),
            r.1 == self@.tls_config,
    {
        let server = HttpServer {
            router: Router::build(self.router),
            on_request_complete: self.on_request_complete,
            cors: self.cors,
            request_timeout: self.request_timeout,
            keep_alive_timeout: self.keep_alive_timeout,
            restart_stability_window: self.restart_stability_window,
            restart_pre_hook_timeout: self.restart_pre_hook_timeout,
            max_body_size: self.max_body_size,
        };
        (server, self.tls_config)
    }
}

// ── Laws ───────────────────────────────────────────────────────────────────

/// A request for the head alone goes where a request for the whole would go, and
/// the body of its response is suppressed.
pub proof fn law_head_like_get<H, C, R>(s: ServerModel<H, C>, call: CallModel)
    requires
        call.request.method == HttpMethod::HEAD,
    ensures
        ({
            let whole = CallModel {
                request: RequestModel { method: HttpMethod::GET, ..call.request },
                ..call
            };
            let (head_call, head_plan) = planned::<H, C, R>(s, call);
            let (whole_call, whole_plan) = planned::<H, C, R>(s, whole);
            &&& head_plan is Dispatch <==> whole_plan is Dispatch
            &&& head_plan matches PlanModel::Dispatch(route) ==> whole_plan == PlanModel::<
                H,
                R,
            >::Dispatch(route)
            &&& head_call.request.path_params == whole_call.request.path_params
            &&& head_call.suppressed
            &&& call_response::<R>(head_call).suppressed
        }),
{
}

/// A request that no route fits is answered with 404 exactly where no route fits
/// its path for any of the methods that routes are looked up for; otherwise it is
/// answered with 405, and every method for which one fits is named.
pub proof fn law_not_found_or_not_allowed<H, C, R>(
    s: ServerModel<H, C>,
    call: CallModel,
    method: HttpMethod,
)
    requires
        method == HttpMethod::GET || method == HttpMethod::POST || method == HttpMethod::PUT
            || method == HttpMethod::DELETE || method == HttpMethod::PATCH,
    ensures
        answers(s.routes, method, call.request.route) ==> allowed_methods(
            s.routes,
            call.request.route,
        ).contains(method.name()),
        unmatched_answer::<H, C, R>(s, call).status == HttpStatusCode::NotFound
            || unmatched_answer::<H, C, R>(s, call).status == HttpStatusCode::MethodNotAllowed,
        unmatched_answer::<H, C, R>(s, call).status == HttpStatusCode::NotFound <==> !answers(
            s.routes,
            HttpMethod::GET,
            call.request.route,
        ) && !answers(s.routes, HttpMethod::POST, call.request.route) && !answers(
            s.routes,
            HttpMethod::PUT,
            call.request.route,
        ) && !answers(s.routes, HttpMethod::DELETE, call.request.route) && !answers(
            s.routes,
            HttpMethod::PATCH,
            call.request.route,
        ),
{
    let routes = s.routes;
    let route = call.request.route;
    let get = answers(routes, HttpMethod::GET, route);
    let a = name_if(Seq::empty(), get, HttpMethod::GET.name());
    let b = name_if(a, answers(routes, HttpMethod::POST, route), HttpMethod::POST.name());
    let c = name_if(b, answers(routes, HttpMethod::PUT, route), HttpMethod::PUT.name());
    let d = name_if(c, answers(routes, HttpMethod::DELETE, route), HttpMethod::DELETE.name());
    let e = name_if(d, answers(routes, HttpMethod::PATCH, route), HttpMethod::PATCH.name());
    let all = allowed_methods(routes, route);
    let name = method.name();
    lemma_name_kept(Seq::empty(), get, HttpMethod::GET.name(), name);
    lemma_name_kept(a, answers(routes, HttpMethod::POST, route), HttpMethod::POST.name(), name);
    lemma_name_kept(b, answers(routes, HttpMethod::PUT, route), HttpMethod::PUT.name(), name);
    lemma_name_kept(c, answers(routes, HttpMethod::DELETE, route), HttpMethod::DELETE.name(), name);
    lemma_name_kept(d, answers(routes, HttpMethod::PATCH, route), HttpMethod::PATCH.name(), name);
    lemma_name_kept(e, get, HttpMethod::HEAD.name(), name);
}

proof fn lemma_name_kept(names: Seq<Seq<u8>>, on: bool, added: Seq<u8>, name: Seq<u8>)
    ensures
        names.contains(name) ==> name_if(names, on, added).contains(name),
        on && added == name ==> name_if(names, on, added).contains(name),
{
    let after = name_if(names, on, added);
    if names.contains(name) {
        let i = choose|i: int| 0 <= i < names.len() && names[i] == name;
        assert(after[i] == name);
    }
    if on {
        assert(after[names.len() as int] == added);
    }
}

/// As long as none of them answers, the handlers before a route's own run in
/// order, and then the route's own.
pub proof fn law_stages_in_order(done: int, total: int)
    requires
        0 <= done <= total <= usize::MAX,
    ensures
        done < total ==> stage_after(done, total, false) == Stage::Middleware(done as usize),
        done == total ==> stage_after(done, total, false) == Stage::Handler,
{
}

/// A handler that runs before a route's own and answers is the last to run.
pub proof fn law_answered_is_finished(done: int, total: int)
    requires
        done > 0,
    ensures
        stage_after(done, total, true) == Stage::Finish,
{
}

/// What has been noted under a name can be read under it, behind what was noted
/// there before; what is noted under other names stays.
pub proof fn law_noted(extras: Seq<Pair>, name: Seq<u8>, value: Seq<u8>, other: Seq<u8>)
    ensures
        pair_value(note(extras, name, value), name) == Some(
            match pair_value(extras, name) {
                Some(v) => v + ", ".spec_bytes() + value,
                None => value,
            },
        ),
        other != name ==> pair_value(note(extras, name, value), other) == pair_value(extras, other),
{
    let noted = note(extras, name, value);
    lemma_pair_index(extras, name);
    lemma_pair_index(noted, name);
    lemma_pair_index(extras, other);
    lemma_pair_index(noted, other);
    let i = pair_index(extras, name);
    let at = pair_index(noted, name);
    assert(noted[i].0 == name);
    if at < i {
        assert(noted[at] == extras[at]);
    }
    if other != name {
        let k = pair_index(extras, other);
        let l = pair_index(noted, other);
        if l < noted.len() && l < extras.len() && l != i {
            assert(noted[l] == extras[l]);
        }
        if k < extras.len() {
            assert(noted[k].0 == other);
        }
    }
}

/// What planning does to a call: of the request only the path parameters change,
/// and whether the body of the response is sent changes only for a request for the
/// head alone, which is sent none.
#[verifier::spinoff_prover]
pub proof fn law_planned_call<H, C, R>(s: ServerModel<H, C>, call: CallModel)
    ensures
        ({
            let after = planned::<H, C, R>(s, call).0;
            &&& call.request.method != HttpMethod::HEAD ==> after.suppressed == call.suppressed
            &&& call.request.method == HttpMethod::HEAD ==> after.suppressed
            &&& after == CallModel {
                suppressed: after.suppressed,
                request: RequestModel {
                    path_params: after.request.path_params,
                    ..call.request
                },
                ..call
            }
            &&& !(planned::<H, C, R>(s, call).1 is Dispatch) ==> after.request == call.request
        }),
{
}

/// A fresh response to a call is the call's: its version, its route and its
/// identifier, with status 200, without a body or cookies, and with its body
/// suppressed exactly where the call's is.
pub proof fn law_fresh_response<R>(call: CallModel)
    ensures
        ({
            let m = call_response::<R>(call);
            &&& m.version == call.request.version
            &&& m.path == call.request.route
            &&& m.status == HttpStatusCode::OK
            &&& m.body is None
            &&& m.cookies is None
            &&& m.suppressed == call.suppressed
            &&& m.fields == seq![("x-request-id".spec_bytes(), hyphenated(call.id))]
        }),
{
    reveal_strlit("x-request-id");
    assert(is_ascii("x-request-id"));
    let name = "x-request-id".spec_bytes();
    assert(lower_all(name) =~= name);
    law_added_place(Seq::<Field>::empty(), name, hyphenated(call.id), 0);
    assert(Seq::<Field>::empty().push((name, hyphenated(call.id))) =~= seq![
        (name, hyphenated(call.id)),
    ]);
}

/// The body of a response reaches the one who asked for it: a response to a call
/// that is not for the head alone, made with a body in memory and a status that
/// allows one, is followed by the bytes of that body.
pub proof fn law_body_reaches_client<H, C, R>(
    s: ServerModel<H, C>,
    call: CallModel,
    status: HttpStatusCode,
    content: Content,
)
    requires
        call.request.method != HttpMethod::HEAD,
        !call.suppressed,
        status != HttpStatusCode::NoContent,
        status != HttpStatusCode::NotModified,
    ensures
        outgoing_body(
            ResponseModel {
                status,
                body: Some(PayloadModel::Bytes(content)),
                ..call_response::<R>(planned::<H, C, R>(s, call).0)
            },
        ) == OutgoingModel::<R>::Whole(content.bytes),
{
    let after = planned::<H, C, R>(s, call).0;
    law_fresh_response::<R>(after);
    let fields = call_response::<R>(after).fields;
    lemma_no_transfer_encoding(fields, hyphenated(after.id));
}

proof fn lemma_no_transfer_encoding(fields: Seq<Field>, id: Seq<u8>)
    requires
        fields == seq![("x-request-id".spec_bytes(), id)],
    ensures
        field_value(fields, "transfer-encoding".spec_bytes()) is None,
{
    reveal_strlit("x-request-id");
    reveal_strlit("transfer-encoding");
    assert(is_ascii("x-request-id") && is_ascii("transfer-encoding"));
    let other = "transfer-encoding".spec_bytes();
    assert(other.len() == 17 && "x-request-id".spec_bytes().len() == 12);
    law_same_ignoring_case("x-request-id".spec_bytes(), other);
    law_field_value(fields, other, 0);
}

/// What is done about a request. It is answered as a preflight exactly where the
/// server has a policy and the method is `OPTIONS`. Otherwise it goes to the route
/// that its path and its method lead to, a request for the head alone to the one
/// for the whole, with what the route's pattern captures; a query behind the path
/// makes no difference. Only where no route may answer is it answered as one that
/// nothing fits.
#[verifier::spinoff_prover]
pub proof fn law_plan_by_path<H, C, R>(
    s: ServerModel<H, C>,
    call: CallModel,
    path: Seq<u8>,
    query: Seq<u8>,
    i: int,
)
    requires
        forall|k: int| 0 <= k < path.len() ==> #[trigger] path[k] != 63,
        call.request.route == path || call.request.route == path + seq![63u8] + query,
    ensures
        ({
            let method = if call.request.method == HttpMethod::HEAD {
                HttpMethod::GET
            } else {
                call.request.method
            };
            let (after, plan) = planned::<H, C, R>(s, call);
            &&& plan is Preflight <==> s.policy is Some && call.request.method
                == HttpMethod::OPTIONS
            &&& plan is Unmatched ==> !eligible(s.routes, method, path, i)
            &&& plan matches PlanModel::Dispatch(route) ==> right_answer(
                s.routes,
                method,
                path,
                route,
                after.request.path_params,
            )
        }),
{
    law_query_ignored(path, query);
    let method = if call.request.method == HttpMethod::HEAD {
        HttpMethod::GET
    } else {
        call.request.method
    };
    law_most_specific_answers(s.routes, method, path);
}

/// A route is registered under its own pattern.
pub proof fn law_entries<H>(routes: Seq<RouteDefinition<H>>, i: int)
    requires
        0 <= i < routes.len(),
    ensures
        entries_of(routes).len() == routes.len(),
        entries_of(routes)[i].route == routes[i],
        entries_of(routes)[i].segments == segments_of(encode_utf8(routes[i].pattern@)),
{
}

/// A name alone in a list, where `on` holds.
pub open spec fn one_if(on: bool, name: Seq<u8>) -> Seq<Seq<u8>> {
    if on {
        seq![name]
    } else {
        Seq::empty()
    }
}

/// The methods that are named to a request which no route fits, in this order, are
/// those of `GET`, `POST`, `PUT`, `DELETE` and `PATCH` for which a route fits its
/// path, and `HEAD` where one fits for `GET`.
pub proof fn law_allowed_names<H>(routes: Seq<Entry<H>>, path: Seq<u8>, query: Seq<u8>)
    requires
        forall|k: int| 0 <= k < path.len() ==> #[trigger] path[k] != 63,
    ensures
        ({
            let names = one_if(
                lookup(routes, HttpMethod::GET, path) is Some,
                "GET".spec_bytes(),
            ) + one_if(lookup(routes, HttpMethod::POST, path) is Some, "POST".spec_bytes())
                + one_if(lookup(routes, HttpMethod::PUT, path) is Some, "PUT".spec_bytes())
                + one_if(lookup(routes, HttpMethod::DELETE, path) is Some, "DELETE".spec_bytes())
                + one_if(lookup(routes, HttpMethod::PATCH, path) is Some, "PATCH".spec_bytes())
                + one_if(lookup(routes, HttpMethod::GET, path) is Some, "HEAD".spec_bytes());
            &&& allowed_methods(routes, path) == names
            &&& allowed_methods(routes, path + seq![63u8] + query) == names
        }),
{
    law_query_ignored(path, query);
    lemma_allowed_names(routes, path, path);
    lemma_allowed_names(routes, path, path + seq![63u8] + query);
}

proof fn lemma_name_if(names: Seq<Seq<u8>>, on: bool, name: Seq<u8>)
    ensures
        name_if(names, on, name) == names + one_if(on, name),
{
    assert(name_if(names, on, name) =~= names + one_if(on, name));
}

proof fn lemma_allowed_names<H>(routes: Seq<Entry<H>>, path: Seq<u8>, route: Seq<u8>)
    requires
        path_of(route) == path,
    ensures
        allowed_methods(routes, route) == one_if(
            lookup(routes, HttpMethod::GET, path) is Some,
            "GET".spec_bytes(),
        ) + one_if(lookup(routes, HttpMethod::POST, path) is Some, "POST".spec_bytes()) + one_if(
            lookup(routes, HttpMethod::PUT, path) is Some,
            "PUT".spec_bytes(),
        ) + one_if(lookup(routes, HttpMethod::DELETE, path) is Some, "DELETE".spec_bytes())
            + one_if(lookup(routes, HttpMethod::PATCH, path) is Some, "PATCH".spec_bytes())
            + one_if(lookup(routes, HttpMethod::GET, path) is Some, "HEAD".spec_bytes()),
{
    let get = answers(routes, HttpMethod::GET, route);
    let a = name_if(Seq::empty(), get, HttpMethod::GET.name());
    let b = name_if(a, answers(routes, HttpMethod::POST, route), HttpMethod::POST.name());
    let c = name_if(b, answers(routes, HttpMethod::PUT, route), HttpMethod::PUT.name());
    let d = name_if(c, answers(routes, HttpMethod::DELETE, route), HttpMethod::DELETE.name());
    let e = name_if(d, answers(routes, HttpMethod::PATCH, route), HttpMethod::PATCH.name());
    lemma_name_if(Seq::empty(), get, HttpMethod::GET.name());
    lemma_name_if(a, answers(routes, HttpMethod::POST, route), HttpMethod::POST.name());
    lemma_name_if(b, answers(routes, HttpMethod::PUT, route), HttpMethod::PUT.name());
    lemma_name_if(c, answers(routes, HttpMethod::DELETE, route), HttpMethod::DELETE.name());
    lemma_name_if(d, answers(routes, HttpMethod::PATCH, route), HttpMethod::PATCH.name());
    lemma_name_if(e, get, HttpMethod::HEAD.name());
    assert(Seq::<Seq<u8>>::empty() + one_if(get, HttpMethod::GET.name()) =~= one_if(
        get,
        HttpMethod::GET.name(),
    ));
}

/// The answer to a request that no route fits has no body and no cookies, what the
/// policy says to the request, and, where a route for another method fits, the
/// names of those methods under `allow`; with none, nothing but that.
#[verifier::spinoff_prover]
pub proof fn law_unmatched_fields<H, C, R>(s: ServerModel<H, C>, call: CallModel, other: Seq<u8>)
    ensures
        ({
            let m = unmatched_answer::<H, C, R>(s, call);
            let own = seq![("x-request-id".spec_bytes(), hyphenated(call.id))];
            let told = match s.policy {
                Some(p) => with_cors(p, call.request, own),
                None => own,
            };
            let names = allowed_methods(s.routes, call.request.route);
            &&& m.body is None
            &&& m.cookies is None
            &&& !m.suppressed
            &&& m.version == call.request.version
            &&& m.path == call.request.route
            &&& m.status == if names.len() == 0 {
                HttpStatusCode::NotFound
            } else {
                HttpStatusCode::MethodNotAllowed
            }
            &&& names.len() == 0 ==> m.fields == told
            &&& names.len() > 0 ==> field_value(m.fields, "allow".spec_bytes()) == Some(
                joined(names, ", ".spec_bytes()),
            )
            &&& !same_ignoring_case("allow".spec_bytes(), other) ==> field_value(m.fields, other)
                == field_value(told, other)
        }),
{
    law_fresh_response::<R>(CallModel { suppressed: false, ..call });
    lemma_allow_not_reserved();
    let own = seq![("x-request-id".spec_bytes(), hyphenated(call.id))];
    let told = match s.policy {
        Some(p) => with_cors(p, call.request, own),
        None => own,
    };
    let names = allowed_methods(s.routes, call.request.route);
    lemma_fresh_lacks(hyphenated(call.id));
    if let Some(p) = s.policy {
        let origin = allowed_origin(p, field_value(call.request.fields, "origin".spec_bytes()));
        if let Some(o) = origin {
            lemma_allow_apart();
            law_cors_values(p, call.request, own, o, "allow".spec_bytes());
        }
    }
    assert(field_value(told, "allow".spec_bytes()) is None);
    law_added_field(told, "allow".spec_bytes(), joined(names, ", ".spec_bytes()), other);
}

/// `allow` is none of the names of the fields that tell of a policy.
proof fn lemma_allow_apart()
    ensures
        !same_ignoring_case("access-control-allow-origin".spec_bytes(), "allow".spec_bytes()),
        !same_ignoring_case("access-control-allow-credentials".spec_bytes(), "allow".spec_bytes()),
        !same_ignoring_case("access-control-allow-methods".spec_bytes(), "allow".spec_bytes()),
        !same_ignoring_case("access-control-expose-headers".spec_bytes(), "allow".spec_bytes()),
        !same_ignoring_case("vary".spec_bytes(), "allow".spec_bytes()),
{
    reveal_strlit("access-control-allow-origin");
    reveal_strlit("access-control-allow-credentials");
    reveal_strlit("access-control-allow-methods");
    reveal_strlit("access-control-expose-headers");
    reveal_strlit("vary");
    reveal_strlit("allow");
    assert(is_ascii("access-control-allow-origin") && is_ascii("access-control-allow-credentials")
        && is_ascii("access-control-allow-methods") && is_ascii("access-control-expose-headers")
        && is_ascii("vary") && is_ascii("allow"));
    assert(lower_all("allow".spec_bytes()).len() == 5);
    assert(lower_all("access-control-allow-origin".spec_bytes()).len() == 27);
    assert(lower_all("access-control-allow-credentials".spec_bytes()).len() == 32);
    assert(lower_all("access-control-allow-methods".spec_bytes()).len() == 28);
    assert(lower_all("access-control-expose-headers".spec_bytes()).len() == 29);
    assert(lower_all("vary".spec_bytes()).len() == 4);
}

/// A connection is closed after a request exactly where the request's field
/// `connection` is `close`, in any case.
pub proof fn law_keep_alive(m: RequestModel)
    ensures
        wants_keep_alive(m) <==> !(field_value(m.fields, "connection".spec_bytes()) matches Some(v)
            && same_ignoring_case(v, "close".spec_bytes())),
{
}

/// A request waits to be told to send its body exactly where its field `expect` is
/// `100-continue`, in any case.
pub proof fn law_expects_continue(m: RequestModel)
    ensures
        expects_continue(m) <==> (field_value(m.fields, "expect".spec_bytes()) matches Some(v)
            && same_ignoring_case(v, "100-continue".spec_bytes())),
{
}

/// A request that could not be read is answered with 413 where its body is too
/// large, 414 where its first line is too long, 431 where its header fields are too
/// large, 408 where it took too long, and otherwise with 400.
pub proof fn law_refusals(f: RequestFailure)
    ensures
        refusal_status(f).number() == (if f is PayloadTooLarge {
            413u16
        } else if f is RequestLineTooLong {
            414u16
        } else if f is HeadersTooLarge {
            431u16
        } else if f is Timeout {
            408u16
        } else {
            400u16
        }),
{
}

/// What is noted under a name in some case, with white space around it, is noted
/// under that name in lower case without it.
pub proof fn law_extras_key(key: Seq<u8>, other: Seq<u8>)
    ensures
        extras_key(key) == strip_text(lower_all(key)),
        same_ignoring_case(key, other) ==> extras_key(key) == extras_key(other),
{
}

/// What has been taken out from under a name is gone, and what is noted under other
/// names stays.
pub proof fn law_unnoted(extras: Seq<Pair>, name: Seq<u8>, other: Seq<u8>)
    requires
        names_differ(extras),
    ensures
        pair_value(unnote(extras, name), name) is None,
        other != name ==> pair_value(unnote(extras, name), other) == pair_value(extras, other),
{
    let left = unnote(extras, name);
    lemma_pair_index(extras, name);
    lemma_pair_index(left, name);
    lemma_pair_index(extras, other);
    lemma_pair_index(left, other);
    let i = pair_index(extras, name);
    let at = pair_index(left, name);
    if at < left.len() {
        if at < i {
            assert(left[at] == extras[at]);
        } else {
            assert(left[at] == extras[at + 1]);
            assert(extras[i].0 != extras[at + 1].0);
        }
    }
    if other != name && i < extras.len() {
        let k = pair_index(extras, other);
        let l = pair_index(left, other);
        if k < extras.len() {
            if k < i {
                assert(left[k] == extras[k]);
            } else {
                assert(left[k - 1] == extras[k]);
            }
        }
        if l < left.len() {
            if l < i {
                assert(left[l] == extras[l]);
                if k < l {
                    assert(left[k] == extras[k]);
                }
            } else {
                assert(left[l] == extras[l + 1]);
                if k < l + 1 && k < extras.len() {
                    if k < i {
                        assert(left[k] == extras[k]);
                    } else if k > i {
                        assert(left[k - 1] == extras[k]);
                    }
                }
            }
        }
    }
}

/// Before any handler has run, nothing counts as an answer: the first handler
/// runs, or the route's own where there is no other.
pub proof fn law_first_stage(total: int, answered: bool)
    requires
        0 <= total <= usize::MAX,
    ensures
        total > 0 ==> stage_after(0, total, answered) == Stage::Middleware(0),
        total == 0 ==> stage_after(0, total, answered) == Stage::Handler,
{
}

/// What a planned call is answered with, where it does not go to a route: a
/// preflight with what the policy says to a fresh response, and a request that
/// nothing fits with what it is told of that.
pub proof fn law_planned_answers<H, C, R>(s: ServerModel<H, C>, call: CallModel)
    ensures
        planned::<H, C, R>(s, call).1 matches PlanModel::Preflight(a) ==> s.policy is Some
            && cors_answer(s.policy->Some_0, call.request, call_response::<R>(call), true) == Some(a),
        planned::<H, C, R>(s, call).1 matches PlanModel::Unmatched(a) ==> a == unmatched_answer::<
            H,
            C,
            R,
        >(s, call),
{
}

proof fn lemma_fresh_lacks(id: Seq<u8>)
    ensures
        lacks_from(seq![("x-request-id".spec_bytes(), id)], preflight_names(), 0),
        field_value(seq![("x-request-id".spec_bytes(), id)], "allow".spec_bytes()) is None,
{
    reveal_strlit("x-request-id");
    reveal_strlit("access-control-allow-origin");
    reveal_strlit("access-control-allow-credentials");
    reveal_strlit("access-control-allow-methods");
    reveal_strlit("access-control-allow-headers");
    reveal_strlit("access-control-max-age");
    reveal_strlit("vary");
    reveal_strlit("access-control-expose-headers");
    reveal_strlit("allow");
    assert(is_ascii("x-request-id") && is_ascii("access-control-allow-origin") && is_ascii(
        "access-control-allow-credentials",
    ) && is_ascii("access-control-allow-methods") && is_ascii("access-control-allow-headers")
        && is_ascii("access-control-max-age") && is_ascii("vary") && is_ascii(
        "access-control-expose-headers",
    ) && is_ascii("allow"));
    let own = seq![("x-request-id".spec_bytes(), id)];
    let names = preflight_names();
    assert forall|n: int| 0 <= n < names.len() implies lacks(own, #[trigger] names[n]) by {
        assert(names[n].len() != 12);
        law_same_ignoring_case("x-request-id".spec_bytes(), names[n]);
    }
    law_same_ignoring_case("x-request-id".spec_bytes(), "allow".spec_bytes());
    law_field_value(own, "allow".spec_bytes(), 0);
}

/// A preflight from an origin that the policy lists, in whatever case and wherever
/// in the list, for a method that the policy lists, is told that its origin is
/// allowed.
#[verifier::spinoff_prover]
pub proof fn law_preflight_from_listed<H, C, R>(
    s: ServerModel<H, C>,
    call: CallModel,
    origins: Seq<Seq<u8>>,
    i: int,
    j: int,
    origin: Seq<u8>,
    method: Seq<u8>,
)
    requires
        s.policy is Some,
        s.policy->Some_0.origins == Some(origins),
        0 <= i < origins.len(),
        same_ignoring_case(origins[i], origin),
        0 <= j < s.policy->Some_0.methods.len(),
        same_ignoring_case(method, s.policy->Some_0.methods[j].name()),
        call.request.method == HttpMethod::OPTIONS,
        field_value(call.request.fields, "origin".spec_bytes()) == Some(origin),
        field_value(call.request.fields, "access-control-request-method".spec_bytes()) == Some(
            method,
        ),
    ensures
        planned::<H, C, R>(s, call).1 matches PlanModel::Preflight(a) && a.status
            == HttpStatusCode::NoContent && field_value(
            a.fields,
            "access-control-allow-origin".spec_bytes(),
        ) == Some(origin),
{
    let p = s.policy->Some_0;
    let m = p.methods[j];
    let fresh = call_response::<R>(call);
    law_fresh_response::<R>(call);
    lemma_fresh_lacks(hyphenated(call.id));
    law_listed_origin(p, origins, i, origin);
    law_preflight_fields(p, call.request, fresh, m);
    assert(p.methods.contains(m));
    let a = cors_answer(p, call.request, fresh, true)->Some_0;
    let name = "access-control-allow-origin".spec_bytes();
    assert(fresh.fields.len() == 1);
    assert(a.fields[0] == fresh.fields[0]);
    assert(a.fields[1] == (name, origin));
    assert(lacks(fresh.fields, preflight_names()[0]));
    assert(!same_ignoring_case(fresh.fields[0].0, name));
    law_field_value(a.fields, name, 1);
}

/// A response to a request from a listed origin is told the same, whatever the
/// request is for, where the policy is put to fields of which none tells of it yet.
#[verifier::spinoff_prover]
pub proof fn law_answer_to_listed(
    p: Policy,
    request: RequestModel,
    fields: Seq<Field>,
    origins: Seq<Seq<u8>>,
    i: int,
    origin: Seq<u8>,
)
    requires
        p.origins == Some(origins),
        0 <= i < origins.len(),
        same_ignoring_case(origins[i], origin),
        field_value(request.fields, "origin".spec_bytes()) == Some(origin),
        lacks_from(fields, preflight_names(), 0),
    ensures
        field_value(
            with_cors(p, request, fields),
            "access-control-allow-origin".spec_bytes(),
        ) == Some(origin),
{
    law_listed_origin(p, origins, i, origin);
    let fresh = ResponseModel::<()> {
        version: Seq::empty(),
        path: Seq::empty(),
        status: HttpStatusCode::OK,
        body: None,
        fields,
        cookies: None,
        suppressed: false,
    };
    law_cors_fields(p, request, fields, fresh);
    let all = with_cors(p, request, fields);
    let name = "access-control-allow-origin".spec_bytes();
    let n = fields.len() as int;
    assert(all[n] == (name, origin));
    assert(lacks(fields, preflight_names()[0]));
    assert forall|j: int| 0 <= j < n implies !same_ignoring_case((#[trigger] all[j]).0, name) by {
        assert(all[j] == fields[j]);
    }
    assert(same_ignoring_case(name, name));
    law_field_value(all, name, n);
}

/// What a server is built with where nothing else is said: requests have a minute,
/// connections stay open for 75 seconds, bodies have up to 10 MiB, a new process
/// proves itself in 5 seconds and the hook of a restart has 30.
pub proof fn law_defaults<H, C>(port: u16, routes: Seq<RouteDefinition<H>>)
    ensures
        ({
            let b = default_builder::<H, C>(port, routes);
            &&& b.port == port
            &&& b.routes == routes
            &&& b.policy is None && b.tls_config is None && b.on_request_complete is None
            &&& b.request_timeout.secs == 60 && b.request_timeout.nanos == 0
            &&& b.keep_alive_timeout.secs == 75 && b.keep_alive_timeout.nanos == 0
            &&& b.max_body_size == 10 * 1024 * 1024
            &&& b.restart_stability_window.secs == 5 && b.restart_stability_window.nanos == 0
            &&& b.restart_pre_hook_timeout.secs == 30 && b.restart_pre_hook_timeout.nanos == 0
        }),
{
}

/// A plan stands for itself: the answer that it holds, or the route.
pub proof fn law_plans<H, R>(plan: Plan<'_, H, R>)
    ensures
        plan matches Plan::Preflight(a) ==> plan@ == PlanModel::<H, R>::Preflight(a@),
        plan matches Plan::Unmatched(a) ==> plan@ == PlanModel::<H, R>::Unmatched(a@),
        plan matches Plan::Dispatch(route) ==> plan@ == PlanModel::<H, R>::Dispatch(*route),
{
}

} // verus!

//! Cross-origin resource sharing.

use crate::cookie_store::optional_text;
use crate::field_lines::{add_field, field_value, law_added_field, law_added_place, Field};
use crate::numbers::{decimal, number_text};
use crate::request::{law_method_names, method_of, HttpMethod, RequestModel};
use crate::response::{
    field_or_empty, HttpResponse, HttpResponseBodyUnInitialized, HttpStatusCode, ResponseModel,
};
use crate::server::{call_response, HttpCall};
use crate::text::{
    equal_ignoring_case, join, joined, lower_all, push_text, same_ignoring_case, text_of,
    utf8_list,
};
use std::marker::PhantomData;
use vstd::prelude::*;
use vstd::string::{is_ascii, StringSliceAdditionalSpecFns};
use vstd::utf8::*;

verus! {

/// The origins that may read responses.
#[derive(Clone, Debug)]
pub enum AllowedOrigin {
    Any,
    Only(Vec<String>),
}

/// A cross-origin policy.
#[derive(Clone, Debug)]
pub struct Cors {
    pub allowed_origin: AllowedOrigin,
    pub allowed_methods: Vec<HttpMethod>,
    pub allowed_headers: Vec<String>,
    pub exposed_headers: Vec<String>,
    pub allow_credentials: bool,
    pub max_age: Option<u64>,
}

/// Nothing is restricted.
pub struct Any;

/// Only the listed values of type `T` are allowed.
pub struct Restricted<T>(PhantomData<T>);

/// Builds a `Cors`. The type parameters say what is restricted to a list.
pub struct CorsBuilder<OriginState, MethodState, HeaderState> {
    allowed_origin: AllowedOrigin,
    allowed_methods: Vec<HttpMethod>,
    allowed_headers: Vec<String>,
    exposed_headers: Vec<String>,
    allow_credentials: bool,
    max_age: Option<u64>,
    _origin: PhantomData<OriginState>,
    _method: PhantomData<MethodState>,
    _header: PhantomData<HeaderState>,
}

/// What a policy allows. Texts are in UTF-8.
#[verifier::ext_equal]
pub struct Policy {
    /// The only origins allowed; `None` allows any.
    pub origins: Option<Seq<Seq<u8>>>,
    pub methods: Seq<HttpMethod>,
    pub headers: Seq<Seq<u8>>,
    pub exposed: Seq<Seq<u8>>,
    pub credentials: bool,
    pub max_age: Option<u64>,
}

/// Any origin, no methods, no headers, no credentials.
pub open spec fn open_policy() -> Policy {
    Policy {
        origins: None,
        methods: Seq::empty(),
        headers: Seq::empty(),
        exposed: Seq::empty(),
        credentials: false,
        max_age: None,
    }
}

/// A call on a builder.
pub enum Setting {
    OnlyOrigins,
    Origin(Seq<u8>),
    Method(HttpMethod),
    Header(Seq<u8>),
    Exposed(Seq<u8>),
    Credentials(bool),
    MaxAge(u64),
}

/// The policy after a call on its builder.
pub open spec fn configured(p: Policy, s: Setting) -> Policy {
    match s {
        Setting::OnlyOrigins => Policy { origins: Some(Seq::empty()), ..p },
        Setting::Origin(o) => Policy {
            origins: match p.origins {
                Some(list) => Some(list.push(o)),
                None => None,
            },
            ..p
        },
        Setting::Method(m) => Policy { methods: p.methods.push(m), ..p },
        Setting::Header(h) => Policy { headers: p.headers.push(h), ..p },
        Setting::Exposed(h) => Policy { exposed: p.exposed.push(h), ..p },
        Setting::Credentials(b) => Policy { credentials: b, ..p },
        Setting::MaxAge(n) => Policy { max_age: Some(n), ..p },
    }
}

impl View for AllowedOrigin {
    type V = Option<Seq<Seq<u8>>>;

    open spec fn view(&self) -> Option<Seq<Seq<u8>>> {
        match self {
            AllowedOrigin::Any => None,
            AllowedOrigin::Only(v) => Some(utf8_list(v@)),
        }
    }
}

impl View for Cors {
    type V = Policy;

    open spec fn view(&self) -> Policy {
        Policy {
            origins: self.allowed_origin@,
            methods: self.allowed_methods@,
            headers: utf8_list(self.allowed_headers@),
            exposed: utf8_list(self.exposed_headers@),
            credentials: self.allow_credentials,
            max_age: self.max_age,
        }
    }
}

/// The policy that has been put together so far.
impl<OriginState, MethodState, HeaderState> View for CorsBuilder<
    OriginState,
    MethodState,
    HeaderState,
> {
    type V = Policy;

    closed spec fn view(&self) -> Policy {
        Policy {
            origins: self.allowed_origin@,
            methods: self.allowed_methods@,
            headers: utf8_list(self.allowed_headers@),
            exposed: utf8_list(self.exposed_headers@),
            credentials: self.allow_credentials,
            max_age: self.max_age,
        }
    }
}

impl CorsBuilder<Any, Restricted<HttpMethod>, Restricted<String>> {
    /// Any origin, no methods, no headers, no credentials.
    pub fn new() -> (r: Self)
        ensures
            r@ == open_policy(),
    {
        let r = CorsBuilder {
            allowed_origin: AllowedOrigin::Any,
            allowed_methods: Vec::new(),
            allowed_headers: Vec::new(),
            exposed_headers: Vec::new(),
            allow_credentials: false,
            max_age: None,
            _origin: PhantomData,
            _method: PhantomData,
            _header: PhantomData,
        };
        assert(r@ =~= open_policy());
        r
    }
}

impl Default for CorsBuilder<Any, Restricted<HttpMethod>, Restricted<String>> {
    fn default() -> (r: Self)
        ensures
            r@ == open_policy(),
    {
        Self::new()
    }
}

impl<MethodState, HeaderState> CorsBuilder<Any, MethodState, HeaderState> {
    /// Any origin is allowed, as it is without this call.
    pub fn allow_any_origin(self) -> (r: Self)
        ensures
            r == self,
    {
        self
    }

    /// From here on only the origins that are added are allowed.
    pub fn only_origins(self) -> (r: CorsBuilder<Restricted<String>, MethodState, HeaderState>)
        ensures
            r@ == configured(self@, Setting::OnlyOrigins),
    {
        let r = CorsBuilder {
            allowed_origin: AllowedOrigin::Only(Vec::new()),
            allowed_methods: self.allowed_methods,
            allowed_headers: self.allowed_headers,
            exposed_headers: self.exposed_headers,
            allow_credentials: self.allow_credentials,
            max_age: self.max_age,
            _origin: PhantomData,
            _method: PhantomData,
            _header: PhantomData,
        };
        assert(r@.origins->0 =~= Seq::<Seq<u8>>::empty());
        r
    }
}

impl<MethodState, HeaderState> CorsBuilder<Restricted<String>, MethodState, HeaderState> {
    /// One more origin.
    pub fn add_origin(self, origin: &str) -> (r: Self)
        ensures
            r@ == configured(self@, Setting::Origin(origin.spec_bytes())),
    {
        let mut b = self;
        if let AllowedOrigin::Only(origins) = &mut b.allowed_origin {
            let ghost list = origins@;
            origins.push(origin.to_owned());
            assert(utf8_list(origins@) =~= utf8_list(list).push(origin.spec_bytes()));
        }
        b
    }
}

impl<OriginState, HeaderState> CorsBuilder<OriginState, Restricted<HttpMethod>, HeaderState> {
    /// One more method.
    pub fn add_method(self, method: HttpMethod) -> (r: Self)
        ensures
            r@ == configured(self@, Setting::Method(method)),
    {
        let mut b = self;
        b.allowed_methods.push(method);
        b
    }
}

impl<OriginState, MethodState> CorsBuilder<OriginState, MethodState, Restricted<String>> {
    /// One more request header.
    pub fn add_header(self, header: &str) -> (r: Self)
        ensures
            r@ == configured(self@, Setting::Header(header.spec_bytes())),
    {
        let mut b = self;
        let ghost before = b.allowed_headers@;
        b.allowed_headers.push(header.to_owned());
        assert(utf8_list(b.allowed_headers@) =~= utf8_list(before).push(header.spec_bytes()));
        b
    }
}

impl<OriginState, MethodState, HeaderState> CorsBuilder<OriginState, MethodState, HeaderState> {
    /// One more response header that scripts may read.
    pub fn add_exposed_header(self, header: &str) -> (r: Self)
        ensures
            r@ == configured(self@, Setting::Exposed(header.spec_bytes())),
    {
        let mut b = self;
        let ghost before = b.exposed_headers@;
        b.exposed_headers.push(header.to_owned());
        assert(utf8_list(b.exposed_headers@) =~= utf8_list(before).push(header.spec_bytes()));
        b
    }

    pub fn allow_credentials(self, value: bool) -> (r: Self)
        ensures
            r@ == configured(self@, Setting::Credentials(value)),
    {
        let mut b = self;
        b.allow_credentials = value;
        b
    }

    /// For how many seconds a preflight answer may be kept.
    pub fn max_age(self, value: u64) -> (r: Self)
        ensures
            r@ == configured(self@, Setting::MaxAge(value)),
    {
        let mut b = self;
        b.max_age = Some(value);
        b
    }

    pub fn build(self) -> (r: Cors)
        ensures
            r@ == self@,
    {
        Cors {
            allowed_origin: self.allowed_origin,
            allowed_methods: self.allowed_methods,
            allowed_headers: self.allowed_headers,
            exposed_headers: self.exposed_headers,
            allow_credentials: self.allow_credentials,
            max_age: self.max_age,
        }
    }
}

// ── What a policy says to a request ────────────────────────────────────────

/// Whether `text` is in the list, in any case.
pub open spec fn listed(list: Seq<Seq<u8>>, text: Seq<u8>) -> bool {
    exists|i: int| 0 <= i < list.len() && same_ignoring_case(#[trigger] list[i], text)
}

/// The origin that a request from `origin` is told is allowed: its own where the
/// policy lists it or allows any together with credentials, and `*` where the
/// policy allows any without.
pub open spec fn allowed_origin(p: Policy, origin: Option<Seq<u8>>) -> Option<Seq<u8>> {
    match p.origins {
        None => match origin {
            Some(o) => if p.credentials {
                Some(o)
            } else {
                Some("*".spec_bytes())
            },
            None => Some("*".spec_bytes()),
        },
        Some(list) => match origin {
            Some(o) => if listed(list, o) {
                Some(o)
            } else {
                None
            },
            None => None,
        },
    }
}

/// Whether the answer depends on the origin.
pub open spec fn varies_by_origin(p: Policy) -> bool {
    p.credentials || p.origins is Some
}

/// The names of the allowed methods.
pub open spec fn method_names(p: Policy) -> Seq<u8> {
    joined(p.methods.map_values(|m: HttpMethod| m.name()), ",".spec_bytes())
}

/// The header fields with the allowed origin, whether credentials are, and the
/// allowed methods.
pub open spec fn with_allowed(p: Policy, fields: Seq<Field>, origin: Seq<u8>) -> Seq<Field> {
    let named = add_field(fields, "access-control-allow-origin".spec_bytes(), origin);
    add_field(
        if p.credentials {
            add_field(named, "access-control-allow-credentials".spec_bytes(), "true".spec_bytes())
        } else {
            named
        },
        "access-control-allow-methods".spec_bytes(),
        method_names(p),
    )
}

/// The header fields with the names of those that scripts may read.
pub open spec fn with_exposed(p: Policy, fields: Seq<Field>) -> Seq<Field> {
    if p.exposed.len() > 0 {
        add_field(
            fields,
            "access-control-expose-headers".spec_bytes(),
            joined(p.exposed, ",".spec_bytes()),
        )
    } else {
        fields
    }
}

/// The header fields with the names of those that the answer depends on.
pub open spec fn with_vary(fields: Seq<Field>, by_origin: bool, by_headers: bool) -> Seq<Field> {
    if by_origin && by_headers {
        add_field(
            fields,
            "vary".spec_bytes(),
            "Origin".spec_bytes() + ", ".spec_bytes()
                + "Access-Control-Request-Headers".spec_bytes(),
        )
    } else if by_origin {
        add_field(fields, "vary".spec_bytes(), "Origin".spec_bytes())
    } else if by_headers {
        add_field(fields, "vary".spec_bytes(), "Access-Control-Request-Headers".spec_bytes())
    } else {
        fields
    }
}

/// The header fields of an answer to a request, with what the policy says to it.
pub open spec fn with_cors(p: Policy, request: RequestModel, fields: Seq<Field>) -> Seq<Field> {
    match allowed_origin(p, field_value(request.fields, "origin".spec_bytes())) {
        None => fields,
        Some(origin) => with_vary(
            with_exposed(p, with_allowed(p, fields, origin)),
            varies_by_origin(p),
            false,
        ),
    }
}

/// The method that a preflight asks for.
pub open spec fn requested_method(request: RequestModel) -> Option<HttpMethod> {
    match field_value(request.fields, "access-control-request-method".spec_bytes()) {
        Some(v) => method_of(v),
        None => None,
    }
}

/// The header fields that a preflight is told are allowed: the ones it asks for
/// where the policy lists none or lists `*`, and otherwise the listed ones.
pub open spec fn allowed_headers(p: Policy, request: RequestModel) -> Seq<u8> {
    if p.headers.len() == 0 || listed(p.headers, "*".spec_bytes()) {
        field_or_empty(request.fields, "access-control-request-headers".spec_bytes())
    } else {
        joined(p.headers, ",".spec_bytes())
    }
}

/// The header fields with what only a preflight is told.
pub open spec fn with_preflight(p: Policy, request: RequestModel, fields: Seq<Field>) -> Seq<
    Field,
> {
    let headers = allowed_headers(p, request);
    let named = if headers.len() > 0 {
        add_field(fields, "access-control-allow-headers".spec_bytes(), headers)
    } else {
        fields
    };
    match p.max_age {
        Some(n) => add_field(named, "access-control-max-age".spec_bytes(), decimal(n as nat)),
        None => named,
    }
}

/// Whether the policy allows what a preflight asks for.
pub open spec fn preflight_granted(p: Policy, request: RequestModel) -> bool {
    &&& allowed_origin(p, field_value(request.fields, "origin".spec_bytes())) is Some
    &&& requested_method(request) matches Some(m) && p.methods.contains(m)
}

/// The answer to a request, where one is due: to a preflight always, empty
/// unless the policy allows what is asked for; to another request where its
/// origin is allowed.
pub open spec fn cors_answer<R>(
    p: Policy,
    request: RequestModel,
    fresh: ResponseModel<R>,
    preflight: bool,
) -> Option<ResponseModel<R>> {
    let origin = allowed_origin(p, field_value(request.fields, "origin".spec_bytes()));
    if preflight {
        let empty = ResponseModel { status: HttpStatusCode::NoContent, ..fresh };
        if !preflight_granted(p, request) {
            Some(empty)
        } else {
            Some(
                ResponseModel {
                    fields: with_exposed(
                        p,
                        with_vary(
                            with_preflight(
                                p,
                                request,
                                with_allowed(p, fresh.fields, origin->Some_0),
                            ),
                            varies_by_origin(p),
                            allowed_headers(p, request).len() > 0,
                        ),
                    ),
                    ..empty
                },
            )
        }
    } else {
        match origin {
            None => None,
            Some(o) => Some(
                ResponseModel {
                    fields: with_exposed(
                        p,
                        with_vary(
                            with_allowed(p, fresh.fields, o),
                            varies_by_origin(p),
                            false,
                        ),
                    ),
                    ..fresh
                },
            ),
        }
    }
}

/// Whether `text` is in the list, in any case.
fn is_listed(list: &Vec<String>, text: &str) -> (r: bool)
    ensures
        r == listed(utf8_list(list@), text.spec_bytes()),
{
    let ghost all = utf8_list(list@);
    for i in 0..list.len()
        invariant
            all == utf8_list(list@),
            forall|j: int|
                0 <= j < i ==> !same_ignoring_case(#[trigger] all[j], text.spec_bytes()),
    {
        if equal_ignoring_case(list[i].as_str().as_bytes(), text.as_bytes()) {
            assert(same_ignoring_case(all[i as int], text.spec_bytes()));
            return true;
        }
    }
    false
}

impl Cors {
    /// The origin that a request from `origin` is told is allowed.
    fn allow_origin(&self, origin: Option<&str>) -> (r: Option<String>)
        ensures
            optional_text(r) == allowed_origin(
                self@,
                match origin {
                    Some(o) => Some(o.spec_bytes()),
                    None => None,
                },
            ),
    {
        match &self.allowed_origin {
            AllowedOrigin::Any => match origin {
                Some(o) => if self.allow_credentials {
                    Some(o.to_owned())
                } else {
                    Some("*".to_owned())
                },
                None => Some("*".to_owned()),
            },
            AllowedOrigin::Only(list) => match origin {
                Some(o) => if is_listed(list, o) {
                    Some(o.to_owned())
                } else {
                    None
                },
                None => None,
            },
        }
    }

    fn varies_by_origin(&self) -> (r: bool)
        ensures
            r == varies_by_origin(self@),
    {
        self.allow_credentials || match &self.allowed_origin {
            AllowedOrigin::Any => false,
            AllowedOrigin::Only(_) => true,
        }
    }

    /// The names of the allowed methods.
    fn method_names(&self) -> (r: String)
        ensures
            encode_utf8(r@) == method_names(self@),
    {
        let mut names: Vec<String> = Vec::new();
        let ghost all = self@.methods.map_values(|m: HttpMethod| m.name());
        for i in 0..self.allowed_methods.len()
            invariant
                all == self@.methods.map_values(|m: HttpMethod| m.name()),
                names@.len() == i,
                forall|j: int| 0 <= j < i ==> encode_utf8((#[trigger] names@[j])@) == all[j],
        {
            names.push(self.allowed_methods[i].as_str().to_owned());
        }
        assert(utf8_list(names@) =~= all);
        join(&names, ",")
    }

    fn add_allowed<R>(
        &self,
        resp: HttpResponse<HttpResponseBodyUnInitialized, R>,
        origin: &str,
    ) -> (r: HttpResponse<HttpResponseBodyUnInitialized, R>)
        requires
            resp.wf(),
        ensures
            r.wf(),
            r@ == (ResponseModel {
                fields: with_allowed(self@, resp@.fields, origin.spec_bytes()),
                ..resp@
            }),
    {
        let mut resp = resp.__add_header_internal("access-control-allow-origin", origin);
        if self.allow_credentials {
            resp = resp.__add_header_internal("access-control-allow-credentials", "true");
        }
        resp.__add_header_internal("access-control-allow-methods", self.method_names().as_str())
    }

    fn add_exposed<R>(&self, resp: HttpResponse<HttpResponseBodyUnInitialized, R>) -> (r:
        HttpResponse<HttpResponseBodyUnInitialized, R>)
        requires
            resp.wf(),
        ensures
            r.wf(),
            r@ == (ResponseModel { fields: with_exposed(self@, resp@.fields), ..resp@ }),
    {
        if self.exposed_headers.len() > 0 {
            resp.__add_header_internal(
                "access-control-expose-headers",
                join(&self.exposed_headers, ",").as_str(),
            )
        } else {
            resp
        }
    }

    fn add_vary<R>(
        resp: HttpResponse<HttpResponseBodyUnInitialized, R>,
        by_origin: bool,
        by_headers: bool,
    ) -> (r: HttpResponse<HttpResponseBodyUnInitialized, R>)
        requires
            resp.wf(),
        ensures
            r.wf(),
            r@ == (ResponseModel {
                fields: with_vary(resp@.fields, by_origin, by_headers),
                ..resp@
            }),
    {
        if by_origin && by_headers {
            let mut text: Vec<u8> = Vec::new();
            push_text(&mut text, "Origin");
            push_text(&mut text, ", ");
            push_text(&mut text, "Access-Control-Request-Headers");
            assert(text@ =~= "Origin".spec_bytes() + ", ".spec_bytes()
                + "Access-Control-Request-Headers".spec_bytes());
            resp.__add_header_internal("vary", text_of(text).as_str())
        } else if by_origin {
            resp.__add_header_internal("vary", "Origin")
        } else if by_headers {
            resp.__add_header_internal("vary", "Access-Control-Request-Headers")
        } else {
            resp
        }
    }

    /// Adds what the policy says to a call to a response.
    pub fn add_cors_headers<R>(
        &self,
        call: &HttpCall,
        resp: HttpResponse<HttpResponseBodyUnInitialized, R>,
    ) -> (r: HttpResponse<HttpResponseBodyUnInitialized, R>)
        requires
            call.wf(),
            resp.wf(),
        ensures
            r.wf(),
            r@ == (ResponseModel {
                fields: with_cors(self@, call@.request, resp@.fields),
                ..resp@
            }),
    {
        let origin: String = match self.allow_origin(call.header("origin")) {
            Some(o) => o,
            None => return resp,
        };
        let resp = self.add_allowed(resp, origin.as_str());
        let resp = self.add_exposed(resp);
        Self::add_vary(resp, self.varies_by_origin(), false)
    }

    /// The method that a preflight asks for.
    fn requested_method(call: &HttpCall) -> (r: Option<HttpMethod>)
        requires
            call.wf(),
        ensures
            r == requested_method(call@.request),
    {
        match call.header("access-control-request-method") {
            Some(v) => match HttpMethod::from_str(v) {
                Ok(m) => Some(m),
                Err(_) => None,
            },
            None => None,
        }
    }

    /// Whether a method is among the allowed ones.
    fn allows_method(&self, method: HttpMethod) -> (r: bool)
        ensures
            r == self@.methods.contains(method),
    {
        for i in 0..self.allowed_methods.len()
            invariant
                forall|j: int| 0 <= j < i ==> #[trigger] self@.methods[j] != method,
        {
            if self.allowed_methods[i] == method {
                assert(self@.methods[i as int] == method);
                return true;
            }
        }
        false
    }

    /// The header fields that a preflight is told are allowed.
    fn allow_headers(&self, call: &HttpCall) -> (r: String)
        requires
            call.wf(),
        ensures
            encode_utf8(r@) == allowed_headers(self@, call@.request),
    {
        proof {
            reveal_strlit("");
            assert(is_ascii(""));
            assert("".spec_bytes() =~= Seq::<u8>::empty());
        }
        let requested: &str = match call.header("access-control-request-headers") {
            Some(v) => v,
            None => "",
        };
        if self.allowed_headers.len() == 0 || is_listed(&self.allowed_headers, "*") {
            requested.to_owned()
        } else {
            join(&self.allowed_headers, ",")
        }
    }

    fn add_preflight<R>(
        &self,
        call: &HttpCall,
        resp: HttpResponse<HttpResponseBodyUnInitialized, R>,
        headers: &str,
    ) -> (r: HttpResponse<HttpResponseBodyUnInitialized, R>)
        requires
            call.wf(),
            resp.wf(),
            headers.spec_bytes() == allowed_headers(self@, call@.request),
        ensures
            r.wf(),
            r@ == (ResponseModel {
                fields: with_preflight(self@, call@.request, resp@.fields),
                ..resp@
            }),
    {
        let mut resp = resp;
        if headers.as_bytes().len() > 0 {
            resp = resp.__add_header_internal("access-control-allow-headers", headers);
        }
        match self.max_age {
            Some(n) => resp.__add_header_internal(
                "access-control-max-age",
                number_text(n).as_str(),
            ),
            None => resp,
        }
    }

    /// The answer to a call, where one is due. A preflight is always answered.
    pub fn apply_cors<R>(&self, call: &HttpCall, is_preflight: bool) -> (r: Option<
        HttpResponse<HttpResponseBodyUnInitialized, R>,
    >)
        requires
            call.wf(),
        ensures
            match r {
                Some(resp) => resp.wf() && cors_answer(
                    self@,
                    call@.request,
                    call_response::<R>(call@),
                    is_preflight,
                ) == Some(resp@),
                None => cors_answer(
                    self@,
                    call@.request,
                    call_response::<R>(call@),
                    is_preflight,
                ) is None,
            },
    {
        let fresh: HttpResponse<HttpResponseBodyUnInitialized, R> = call.response();
        let allowed = self.allow_origin(call.header("origin"));
        if !is_preflight {
            return match allowed {
                None => None,
                Some(origin) => {
                    let resp = self.add_allowed(fresh, origin.as_str());
                    let resp = Self::add_vary(resp, self.varies_by_origin(), false);
                    Some(self.add_exposed(resp))
                },
            };
        }
        let empty = fresh.status_code(HttpStatusCode::NoContent);
        let origin: String = match allowed {
            Some(o) => o,
            None => return Some(empty),
        };
        match Self::requested_method(call) {
            Some(m) => if !self.allows_method(m) {
                return Some(empty);
            },
            None => return Some(empty),
        }
        let headers: String = self.allow_headers(call);
        let by_headers = headers.as_str().as_bytes().len() > 0;
        let resp = self.add_allowed(empty, origin.as_str());
        let resp = self.add_preflight(call, resp, headers.as_str());
        let resp = Self::add_vary(resp, self.varies_by_origin(), by_headers);
        Some(self.add_exposed(resp))
    }

    /// The answer to a preflight.
    pub fn handle_preflight<R>(&self, call: &HttpCall) -> (r: HttpResponse<
        HttpResponseBodyUnInitialized,
        R,
    >)
        requires
            call.wf(),
        ensures
            r.wf(),
            cors_answer(self@, call@.request, call_response::<R>(call@), true) == Some(r@),
    {
        match self.apply_cors(call, true) {
            Some(resp) => resp,
            None => call.response(),
        }
    }
}

// ── Laws ───────────────────────────────────────────────────────────────────

/// An origin that is not listed is told nothing: no header field is added to an
/// answer, and a preflight gets an empty one.
pub proof fn law_foreign_origin<R>(p: Policy, request: RequestModel, fresh: ResponseModel<R>)
    requires
        p.origins is Some,
        field_value(request.fields, "origin".spec_bytes()) matches Some(o) ==> !listed(
            p.origins->Some_0,
            o,
        ),
    ensures
        with_cors(p, request, fresh.fields) == fresh.fields,
        cors_answer(p, request, fresh, true) == Some(
            ResponseModel { status: HttpStatusCode::NoContent, ..fresh },
        ),
        cors_answer(p, request, fresh, false) is None,
{
}

/// A request that names its origin is never told that any origin is allowed
/// together with credentials: it is told its own.
pub proof fn law_credentials_need_origin(p: Policy, origin: Seq<u8>)
    requires
        p.credentials,
    ensures
        allowed_origin(p, Some(origin)) matches Some(o) ==> o == origin,
{
}

/// The policy after calls on its builder.
pub open spec fn after_settings(p: Policy, settings: Seq<Setting>) -> Policy
    decreases settings.len(),
{
    if settings.len() == 0 {
        p
    } else {
        configured(after_settings(p, settings.drop_last()), settings.last())
    }
}

/// The methods that calls add, in order and with repeats.
pub open spec fn methods_added(settings: Seq<Setting>) -> Seq<HttpMethod>
    decreases settings.len(),
{
    if settings.len() == 0 {
        Seq::empty()
    } else {
        match settings.last() {
            Setting::Method(m) => methods_added(settings.drop_last()).push(m),
            _ => methods_added(settings.drop_last()),
        }
    }
}

/// The request headers that calls add, in order and with repeats.
pub open spec fn headers_added(settings: Seq<Setting>) -> Seq<Seq<u8>>
    decreases settings.len(),
{
    if settings.len() == 0 {
        Seq::empty()
    } else {
        match settings.last() {
            Setting::Header(h) => headers_added(settings.drop_last()).push(h),
            _ => headers_added(settings.drop_last()),
        }
    }
}

/// The response headers that calls add, in order and with repeats.
pub open spec fn exposed_added(settings: Seq<Setting>) -> Seq<Seq<u8>>
    decreases settings.len(),
{
    if settings.len() == 0 {
        Seq::empty()
    } else {
        match settings.last() {
            Setting::Exposed(h) => exposed_added(settings.drop_last()).push(h),
            _ => exposed_added(settings.drop_last()),
        }
    }
}

/// The origins that calls add after the one that restricts them, in order and
/// with repeats; none where no call restricts them.
pub open spec fn origins_added(settings: Seq<Setting>) -> Option<Seq<Seq<u8>>>
    decreases settings.len(),
{
    if settings.len() == 0 {
        None
    } else {
        match settings.last() {
            Setting::OnlyOrigins => Some(Seq::empty()),
            Setting::Origin(o) => match origins_added(settings.drop_last()) {
                Some(list) => Some(list.push(o)),
                None => None,
            },
            _ => origins_added(settings.drop_last()),
        }
    }
}

/// What the last call about credentials says; that they are not allowed where
/// there is none.
pub open spec fn last_credentials(settings: Seq<Setting>) -> bool
    decreases settings.len(),
{
    if settings.len() == 0 {
        false
    } else {
        match settings.last() {
            Setting::Credentials(b) => b,
            _ => last_credentials(settings.drop_last()),
        }
    }
}

/// What the last call about the age says.
pub open spec fn last_max_age(settings: Seq<Setting>) -> Option<u64>
    decreases settings.len(),
{
    if settings.len() == 0 {
        None
    } else {
        match settings.last() {
            Setting::MaxAge(n) => Some(n),
            _ => last_max_age(settings.drop_last()),
        }
    }
}

/// A policy lists what was added, in the order of the calls and with repeats, and
/// has the credentials and the age of the last call about each.
pub proof fn law_policy_of_calls(settings: Seq<Setting>)
    ensures
        after_settings(open_policy(), settings) == (Policy {
            origins: origins_added(settings),
            methods: methods_added(settings),
            headers: headers_added(settings),
            exposed: exposed_added(settings),
            credentials: last_credentials(settings),
            max_age: last_max_age(settings),
        }),
    decreases settings.len(),
{
    if settings.len() > 0 {
        law_policy_of_calls(settings.drop_last());
    }
}

/// Two calls concern the same setting.
pub open spec fn same_setting(a: Setting, b: Setting) -> bool {
    match a {
        Setting::OnlyOrigins => b is OnlyOrigins || b is Origin,
        Setting::Origin(_) => b is OnlyOrigins || b is Origin,
        Setting::Method(_) => b is Method,
        Setting::Header(_) => b is Header,
        Setting::Exposed(_) => b is Exposed,
        Setting::Credentials(_) => b is Credentials,
        Setting::MaxAge(_) => b is MaxAge,
    }
}

proof fn lemma_settings_concat(p: Policy, a: Seq<Setting>, b: Seq<Setting>)
    ensures
        after_settings(p, a + b) == after_settings(after_settings(p, a), b),
    decreases b.len(),
{
    if b.len() == 0 {
        assert(a + b =~= a);
    } else {
        lemma_settings_concat(p, a, b.drop_last());
        assert((a + b).drop_last() =~= a + b.drop_last());
    }
}

proof fn lemma_two_settings(p: Policy, a: Setting, b: Setting)
    ensures
        after_settings(p, seq![a, b]) == configured(configured(p, a), b),
{
    assert(seq![a, b].drop_last() =~= seq![a]);
    assert(seq![a].drop_last() =~= Seq::<Setting>::empty());
    assert(after_settings(p, Seq::<Setting>::empty()) == p);
    assert(after_settings(p, seq![a]) == configured(p, a));
}

/// Two neighbouring calls that concern different settings can be swapped.
pub proof fn law_calls_commute(
    p: Policy,
    before: Seq<Setting>,
    a: Setting,
    b: Setting,
    behind: Seq<Setting>,
)
    requires
        !same_setting(a, b),
    ensures
        after_settings(p, before + seq![a, b] + behind) == after_settings(
            p,
            before + seq![b, a] + behind,
        ),
{
    let q = after_settings(p, before);
    lemma_settings_concat(p, before, seq![a, b]);
    lemma_settings_concat(p, before, seq![b, a]);
    lemma_settings_concat(p, before + seq![a, b], behind);
    lemma_settings_concat(p, before + seq![b, a], behind);
    lemma_two_settings(q, a, b);
    lemma_two_settings(q, b, a);
    assert(configured(configured(q, a), b) == configured(configured(q, b), a));
}

/// A request from any of the listed origins, in whatever case it is written, is
/// told its own origin; with a list, a request from any other, or from none, is
/// told nothing.
pub proof fn law_listed_origin(p: Policy, list: Seq<Seq<u8>>, i: int, o: Seq<u8>)
    requires
        p.origins == Some(list),
    ensures
        0 <= i < list.len() && same_ignoring_case(list[i], o) ==> allowed_origin(p, Some(o)) == Some(
            o,
        ),
        (forall|j: int| 0 <= j < list.len() ==> !same_ignoring_case(#[trigger] list[j], o))
            ==> allowed_origin(p, Some(o)) is None,
        allowed_origin(p, None) is None,
{
}

/// Without a list every request is told that its origin is allowed: its own where
/// credentials are allowed and it names one, and otherwise any.
pub proof fn law_any_origin(p: Policy, o: Seq<u8>)
    requires
        p.origins is None,
    ensures
        p.credentials ==> allowed_origin(p, Some(o)) == Some(o),
        !p.credentials ==> allowed_origin(p, Some(o)) == Some("*".spec_bytes()),
        allowed_origin(p, None) == Some("*".spec_bytes()),
{
}

/// No field has a name.
pub open spec fn lacks(fields: Seq<Field>, name: Seq<u8>) -> bool {
    forall|j: int| 0 <= j < fields.len() ==> !same_ignoring_case((#[trigger] fields[j]).0, name)
}

/// No field has one of the names from the `k`th on.
pub open spec fn lacks_from(fields: Seq<Field>, names: Seq<Seq<u8>>, k: int) -> bool {
    forall|n: int| k <= n < names.len() ==> lacks(fields, #[trigger] names[n])
}

/// One field, where `on` holds.
pub open spec fn field_if(on: bool, name: Seq<u8>, value: Seq<u8>) -> Seq<Field> {
    if on {
        seq![(name, value)]
    } else {
        Seq::empty()
    }
}

/// The names are in lower case and differ.
spec fn plain_names(names: Seq<Seq<u8>>) -> bool {
    &&& forall|n: int| 0 <= n < names.len() ==> lower_all(#[trigger] names[n]) == names[n]
    &&& forall|m: int, n: int|
        0 <= m < n < names.len() ==> !same_ignoring_case(#[trigger] names[m], #[trigger] names[n])
}

proof fn lemma_field_pushed(fields: Seq<Field>, names: Seq<Seq<u8>>, k: int, on: bool, value: Seq<u8>)
    requires
        plain_names(names),
        0 <= k < names.len(),
        lacks_from(fields, names, k),
    ensures
        add_field(fields, names[k], value) == fields + seq![(names[k], value)],
        ({
            let after = if on {
                add_field(fields, names[k], value)
            } else {
                fields
            };
            after == fields + field_if(on, names[k], value) && lacks_from(after, names, k + 1)
        }),
{
    assert(lacks(fields, names[k]));
    law_added_place(fields, names[k], value, 0);
    assert(fields.push((names[k], value)) =~= fields + seq![(names[k], value)]);
    assert(fields =~= fields + Seq::<Field>::empty());
    let after = if on {
        add_field(fields, names[k], value)
    } else {
        fields
    };
    assert forall|n: int| k + 1 <= n < names.len() implies lacks(after, #[trigger] names[n]) by {
        assert(lacks(fields, names[n]));
        assert(!same_ignoring_case(names[k], names[n]));
        assert forall|j: int| 0 <= j < after.len() implies !same_ignoring_case(
            (#[trigger] after[j]).0,
            names[n],
        ) by {
            if j < fields.len() {
                assert(after[j] == fields[j]);
            }
        }
    }
}

/// The names of the fields that tell of a policy, in the order in which an answer
/// to a preflight has them.
pub open spec fn preflight_names() -> Seq<Seq<u8>> {
    seq![
        "access-control-allow-origin".spec_bytes(),
        "access-control-allow-credentials".spec_bytes(),
        "access-control-allow-methods".spec_bytes(),
        "access-control-allow-headers".spec_bytes(),
        "access-control-max-age".spec_bytes(),
        "vary".spec_bytes(),
        "access-control-expose-headers".spec_bytes(),
    ]
}

spec fn answer_names() -> Seq<Seq<u8>> {
    seq![
        "access-control-allow-origin".spec_bytes(),
        "access-control-allow-credentials".spec_bytes(),
        "access-control-allow-methods".spec_bytes(),
        "access-control-expose-headers".spec_bytes(),
        "vary".spec_bytes(),
    ]
}

proof fn lemma_differ_in_length(a: Seq<u8>, b: Seq<u8>)
    requires
        a.len() != b.len(),
    ensures
        !same_ignoring_case(a, b),
{
    assert(lower_all(a).len() == a.len() && lower_all(b).len() == b.len());
}

proof fn lemma_plain_names()
    ensures
        plain_names(preflight_names()),
        plain_names(answer_names()),
        forall|fields: Seq<Field>| #[trigger]
            lacks_from(fields, preflight_names(), 0) ==> lacks_from(fields, answer_names(), 0),
{
    reveal_strlit("access-control-allow-origin");
    reveal_strlit("access-control-allow-credentials");
    reveal_strlit("access-control-allow-methods");
    reveal_strlit("access-control-allow-headers");
    reveal_strlit("access-control-max-age");
    reveal_strlit("vary");
    reveal_strlit("access-control-expose-headers");
    assert(is_ascii("access-control-allow-origin") && is_ascii("access-control-allow-credentials")
        && is_ascii("access-control-allow-methods") && is_ascii("access-control-allow-headers")
        && is_ascii("access-control-max-age") && is_ascii("vary") && is_ascii(
        "access-control-expose-headers",
    ));
    let names = preflight_names();
    let o = names[0];
    let c = names[1];
    let m = names[2];
    let h = names[3];
    let a = names[4];
    let v = names[5];
    let e = names[6];
    assert(o.len() == 27 && c.len() == 32 && m.len() == 28 && h.len() == 28 && a.len() == 22
        && v.len() == 4 && e.len() == 29);
    assert(lower_all(o) =~= o);
    assert(lower_all(c) =~= c);
    assert(lower_all(m) =~= m);
    assert(lower_all(h) =~= h);
    assert(lower_all(a) =~= a);
    assert(lower_all(v) =~= v);
    assert(lower_all(e) =~= e);
    assert(lower_all(m)[21] == 109 && lower_all(h)[21] == 104);
    assert forall|i: int, j: int| 0 <= i < j < names.len() implies !same_ignoring_case(
        #[trigger] names[i],
        #[trigger] names[j],
    ) by {
        if !(i == 2 && j == 3) {
            lemma_differ_in_length(names[i], names[j]);
        }
    }
    let others = answer_names();
    assert forall|i: int, j: int| 0 <= i < j < others.len() implies !same_ignoring_case(
        #[trigger] others[i],
        #[trigger] others[j],
    ) by {
        lemma_differ_in_length(others[i], others[j]);
    }
    assert forall|fields: Seq<Field>| #[trigger] lacks_from(fields, names, 0) implies lacks_from(
        fields,
        others,
        0,
    ) by {
        assert(lacks(fields, names[0]) && lacks(fields, names[1]) && lacks(fields, names[2])
            && lacks(fields, names[6]) && lacks(fields, names[5]));
        assert forall|n: int| 0 <= n < others.len() implies lacks(fields, #[trigger] others[n]) by {}
    }
}

/// What the answer to a request is told of the policy: nothing where its origin is
/// not allowed, and otherwise, behind the fields that were there, the origin,
/// credentials where they are allowed, the methods, the fields that scripts may
/// read where there are any, and that the answer depends on the origin where it
/// does.
#[verifier::spinoff_prover]
pub proof fn law_cors_fields<R>(
    p: Policy,
    request: RequestModel,
    fields: Seq<Field>,
    fresh: ResponseModel<R>,
)
    requires
        lacks_from(fields, preflight_names(), 0),
    ensures
        ({
            let comma = ",".spec_bytes();
            let origin = field_value(request.fields, "origin".spec_bytes());
            let listed = field_if(
                p.exposed.len() > 0,
                "access-control-expose-headers".spec_bytes(),
                joined(p.exposed, comma),
            );
            let vary = field_if(
                p.credentials || p.origins is Some,
                "vary".spec_bytes(),
                "Origin".spec_bytes(),
            );
            match allowed_origin(p, origin) {
                None => with_cors(p, request, fields) == fields && cors_answer(
                    p,
                    request,
                    fresh,
                    false,
                ) is None,
                Some(o) => {
                    let told = fields + seq![("access-control-allow-origin".spec_bytes(), o)]
                        + field_if(
                        p.credentials,
                        "access-control-allow-credentials".spec_bytes(),
                        "true".spec_bytes(),
                    ) + seq![
                        (
                            "access-control-allow-methods".spec_bytes(),
                            joined(p.methods.map_values(|m: HttpMethod| m.name()), comma),
                        ),
                    ];
                    &&& with_cors(p, request, fields) == told + listed + vary
                    &&& fresh.fields == fields ==> cors_answer(p, request, fresh, false) == Some(
                        ResponseModel { fields: told + vary + listed, ..fresh },
                    )
                },
            }
        }),
{
    lemma_plain_names();
    let origin = field_value(request.fields, "origin".spec_bytes());
    if let Some(o) = allowed_origin(p, origin) {
        let names = answer_names();
        let plain = preflight_names();
        let truth = "true".spec_bytes();
        let exposed = joined(p.exposed, ",".spec_bytes());
        let methods = method_names(p);
        let by_origin = varies_by_origin(p);
        let word = "Origin".spec_bytes();
        let a = add_field(fields, names[0], o);
        let b = if p.credentials {
            add_field(a, names[1], truth)
        } else {
            a
        };
        let c = add_field(b, names[2], methods);
        let d = if p.exposed.len() > 0 {
            add_field(c, names[3], exposed)
        } else {
            c
        };
        lemma_field_pushed(fields, names, 0, true, o);
        lemma_field_pushed(a, names, 1, p.credentials, truth);
        lemma_field_pushed(b, names, 2, true, methods);
        lemma_field_pushed(c, names, 3, p.exposed.len() > 0, exposed);
        lemma_field_pushed(d, names, 4, by_origin, word);
        lemma_field_pushed(fields, plain, 0, true, o);
        lemma_field_pushed(a, plain, 1, p.credentials, truth);
        lemma_field_pushed(b, plain, 2, true, methods);
        assert(lacks_from(c, plain, 5)) by {
            assert forall|n: int| 5 <= n < plain.len() implies lacks(c, #[trigger] plain[n]) by {}
        }
        lemma_field_pushed(c, plain, 5, by_origin, word);
        let e = if by_origin {
            add_field(c, plain[5], word)
        } else {
            c
        };
        lemma_field_pushed(e, plain, 6, p.exposed.len() > 0, exposed);
    }
}

/// A preflight is answered with 204 and, where its origin is allowed and the policy
/// lists the method that it asks for, is told the origin, credentials where they
/// are allowed, the methods, the header fields that it may send, how long the
/// answer holds, what it depends on and what scripts may read, each where there is
/// something to tell. It may send what it asks for where the policy lists no header
/// fields or lists `*`, and otherwise the listed ones. A preflight that is not
/// granted is told nothing.
#[verifier::spinoff_prover]
pub proof fn law_preflight_fields<R>(
    p: Policy,
    request: RequestModel,
    fresh: ResponseModel<R>,
    method: HttpMethod,
)
    requires
        lacks_from(fresh.fields, preflight_names(), 0),
    ensures
        ({
            let comma = ",".spec_bytes();
            let origin = allowed_origin(p, field_value(request.fields, "origin".spec_bytes()));
            let asked = field_value(
                request.fields,
                "access-control-request-method".spec_bytes(),
            );
            let empty = ResponseModel { status: HttpStatusCode::NoContent, ..fresh };
            let wanted = field_value(
                request.fields,
                "access-control-request-headers".spec_bytes(),
            );
            let any = p.headers.len() == 0 || exists|i: int|
                0 <= i < p.headers.len() && same_ignoring_case(
                    #[trigger] p.headers[i],
                    "*".spec_bytes(),
                );
            let headers = if !any {
                joined(p.headers, comma)
            } else {
                match wanted {
                    Some(v) => v,
                    None => Seq::empty(),
                }
            };
            let by_origin = p.credentials || p.origins is Some;
            let vary = if by_origin && headers.len() > 0 {
                "Origin".spec_bytes() + ", ".spec_bytes()
                    + "Access-Control-Request-Headers".spec_bytes()
            } else if by_origin {
                "Origin".spec_bytes()
            } else {
                "Access-Control-Request-Headers".spec_bytes()
            };
            &&& asked is None || origin is None ==> cors_answer(p, request, fresh, true) == Some(
                empty,
            )
            &&& (asked matches Some(v) && forall|k: int|
                0 <= k < p.methods.len() ==> !same_ignoring_case(
                    v,
                    (#[trigger] p.methods[k]).name(),
                )) ==> cors_answer(p, request, fresh, true) == Some(empty)
            &&& (asked matches Some(v) && same_ignoring_case(v, method.name())
                && p.methods.contains(method) && origin is Some) ==> cors_answer(
                p,
                request,
                fresh,
                true,
            ) == Some(
                ResponseModel {
                    fields: fresh.fields + seq![
                        ("access-control-allow-origin".spec_bytes(), origin->Some_0),
                    ] + field_if(
                        p.credentials,
                        "access-control-allow-credentials".spec_bytes(),
                        "true".spec_bytes(),
                    ) + seq![
                        (
                            "access-control-allow-methods".spec_bytes(),
                            joined(p.methods.map_values(|m: HttpMethod| m.name()), comma),
                        ),
                    ] + field_if(
                        headers.len() > 0,
                        "access-control-allow-headers".spec_bytes(),
                        headers,
                    ) + field_if(
                        p.max_age is Some,
                        "access-control-max-age".spec_bytes(),
                        decimal(p.max_age->Some_0 as nat),
                    ) + field_if(
                        by_origin || headers.len() > 0,
                        "vary".spec_bytes(),
                        vary,
                    ) + field_if(
                        p.exposed.len() > 0,
                        "access-control-expose-headers".spec_bytes(),
                        joined(p.exposed, comma),
                    ),
                    ..empty
                },
            )
        }),
{
    lemma_plain_names();
    let comma = ",".spec_bytes();
    let origin = allowed_origin(p, field_value(request.fields, "origin".spec_bytes()));
    let asked = field_value(request.fields, "access-control-request-method".spec_bytes());
    if let Some(v) = asked {
        law_method_names(method, v);
        if let Some(m) = method_of(v) {
            law_method_names(m, v);
            if p.methods.contains(m) {
                let k = p.methods.index_of(m);
                assert(p.methods[k].name() == m.name());
            }
        }
    }
    if preflight_granted(p, request) {
        let names = preflight_names();
        let fields = fresh.fields;
        let o = origin->Some_0;
        let truth = "true".spec_bytes();
        let methods = method_names(p);
        let headers = allowed_headers(p, request);
        let age = decimal(p.max_age->Some_0 as nat);
        let by_origin = varies_by_origin(p);
        let vary = if by_origin && headers.len() > 0 {
            "Origin".spec_bytes() + ", ".spec_bytes() + "Access-Control-Request-Headers".spec_bytes()
        } else if by_origin {
            "Origin".spec_bytes()
        } else {
            "Access-Control-Request-Headers".spec_bytes()
        };
        let a = add_field(fields, names[0], o);
        let b = if p.credentials {
            add_field(a, names[1], truth)
        } else {
            a
        };
        let c = add_field(b, names[2], methods);
        let d = if headers.len() > 0 {
            add_field(c, names[3], headers)
        } else {
            c
        };
        let e = if p.max_age is Some {
            add_field(d, names[4], age)
        } else {
            d
        };
        let f = if by_origin || headers.len() > 0 {
            add_field(e, names[5], vary)
        } else {
            e
        };
        lemma_field_pushed(fields, names, 0, true, o);
        lemma_field_pushed(a, names, 1, p.credentials, truth);
        lemma_field_pushed(b, names, 2, true, methods);
        lemma_field_pushed(c, names, 3, headers.len() > 0, headers);
        lemma_field_pushed(d, names, 4, p.max_age is Some, age);
        lemma_field_pushed(e, names, 5, by_origin || headers.len() > 0, vary);
        lemma_field_pushed(f, names, 6, p.exposed.len() > 0, joined(p.exposed, comma));
    }
}

/// The value of a field to which `value` is added.
pub open spec fn value_with(before: Option<Seq<u8>>, on: bool, value: Seq<u8>) -> Option<Seq<u8>> {
    if !on {
        before
    } else {
        Some(
            match before {
                Some(v) => v + ", ".spec_bytes() + value,
                None => value,
            },
        )
    }
}

proof fn lemma_value_with(
    fields: Seq<Field>,
    names: Seq<Seq<u8>>,
    k: int,
    on: bool,
    value: Seq<u8>,
    other: Seq<u8>,
)
    requires
        plain_names(names),
        0 <= k < names.len(),
        forall|n: int| 0 <= n < names.len() ==> !same_ignoring_case(#[trigger] names[n], other),
    ensures
        ({
            let after = if on {
                add_field(fields, names[k], value)
            } else {
                fields
            };
            &&& field_value(after, names[k]) == value_with(field_value(fields, names[k]), on, value)
            &&& forall|n: int|
                0 <= n < names.len() && n != k ==> field_value(after, #[trigger] names[n])
                    == field_value(fields, names[n])
            &&& field_value(after, other) == field_value(fields, other)
        }),
{
    law_added_field(fields, names[k], value, other);
    assert(!same_ignoring_case(names[k], other));
    assert forall|n: int| 0 <= n < names.len() && n != k implies field_value(
        if on {
            add_field(fields, names[k], value)
        } else {
            fields
        },
        #[trigger] names[n],
    ) == field_value(fields, names[n]) by {
        if k < n {
            assert(!same_ignoring_case(names[k], names[n]));
        } else {
            assert(!same_ignoring_case(names[n], names[k]));
        }
        law_added_field(fields, names[k], value, names[n]);
    }
}

/// What the answer to a request from an allowed origin says, whatever its fields
/// said before: each thing that the policy says goes behind what was there under
/// that name, and every other field stays as it was.
#[verifier::spinoff_prover]
pub proof fn law_cors_values(
    p: Policy,
    request: RequestModel,
    fields: Seq<Field>,
    origin: Seq<u8>,
    other: Seq<u8>,
)
    requires
        allowed_origin(p, field_value(request.fields, "origin".spec_bytes())) == Some(origin),
        !same_ignoring_case("access-control-allow-origin".spec_bytes(), other),
        !same_ignoring_case("access-control-allow-credentials".spec_bytes(), other),
        !same_ignoring_case("access-control-allow-methods".spec_bytes(), other),
        !same_ignoring_case("access-control-expose-headers".spec_bytes(), other),
        !same_ignoring_case("vary".spec_bytes(), other),
    ensures
        ({
            let after = with_cors(p, request, fields);
            let comma = ",".spec_bytes();
            let o = "access-control-allow-origin".spec_bytes();
            let c = "access-control-allow-credentials".spec_bytes();
            let m = "access-control-allow-methods".spec_bytes();
            let e = "access-control-expose-headers".spec_bytes();
            let v = "vary".spec_bytes();
            &&& field_value(after, o) == value_with(field_value(fields, o), true, origin)
            &&& field_value(after, c) == value_with(
                field_value(fields, c),
                p.credentials,
                "true".spec_bytes(),
            )
            &&& field_value(after, m) == value_with(
                field_value(fields, m),
                true,
                joined(p.methods.map_values(|m: HttpMethod| m.name()), comma),
            )
            &&& field_value(after, e) == value_with(
                field_value(fields, e),
                p.exposed.len() > 0,
                joined(p.exposed, comma),
            )
            &&& field_value(after, v) == value_with(
                field_value(fields, v),
                p.credentials || p.origins is Some,
                "Origin".spec_bytes(),
            )
            &&& field_value(after, other) == field_value(fields, other)
        }),
{
    lemma_plain_names();
    let names = answer_names();
    assert forall|n: int| 0 <= n < names.len() implies !same_ignoring_case(
        #[trigger] names[n],
        other,
    ) by {}
    let truth = "true".spec_bytes();
    let exposed = joined(p.exposed, ",".spec_bytes());
    let methods = method_names(p);
    let word = "Origin".spec_bytes();
    let a = add_field(fields, names[0], origin);
    let b = if p.credentials {
        add_field(a, names[1], truth)
    } else {
        a
    };
    let c = add_field(b, names[2], methods);
    let d = if p.exposed.len() > 0 {
        add_field(c, names[3], exposed)
    } else {
        c
    };
    lemma_value_with(fields, names, 0, true, origin, other);
    lemma_value_with(a, names, 1, p.credentials, truth, other);
    lemma_value_with(b, names, 2, true, methods, other);
    lemma_value_with(c, names, 3, p.exposed.len() > 0, exposed, other);
    lemma_value_with(d, names, 4, varies_by_origin(p), word, other);
    let after = with_cors(p, request, fields);
    assert(field_value(after, names[0]) == field_value(a, names[0]));
    assert(field_value(after, names[1]) == field_value(b, names[1]));
    assert(field_value(after, names[2]) == field_value(c, names[2]));
    assert(field_value(after, names[3]) == field_value(d, names[3]));
    assert(field_value(d, names[4]) == field_value(fields, names[4]));
}

/// A policy is what its parts say, each in its own place and in order.
pub proof fn law_policy_parts(c: Cors, i: int)
    ensures
        c.allowed_origin is Any <==> c@.origins is None,
        c.allowed_origin matches AllowedOrigin::Only(v) ==> (c@.origins matches Some(list)
            && list.len() == v@.len() && (0 <= i < v@.len() ==> list[i] == encode_utf8(v@[i]@))),
        c@.methods == c.allowed_methods@,
        c@.headers.len() == c.allowed_headers@.len(),
        0 <= i < c.allowed_headers@.len() ==> c@.headers[i] == encode_utf8(c.allowed_headers@[i]@),
        c@.exposed.len() == c.exposed_headers@.len(),
        0 <= i < c.exposed_headers@.len() ==> c@.exposed[i] == encode_utf8(c.exposed_headers@[i]@),
        c@.credentials == c.allow_credentials,
        c@.max_age == c.max_age,
{
}

} // verus!

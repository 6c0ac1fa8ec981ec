use bytes::Bytes;
use http::active_set::{ActiveSet, SharedGuard};
use http::body::Body;
use http::connection::Connection;
use http::control::{drains, Control, ControlAction, ControlEvent};
use http::cors::{Cors, CorsBuilder};
use http::request::{HttpMethod, HttpRequest, HttpRequestError, PeerAddress};
use http::response::{HttpResponse, HttpResponseBodyInitialized, HttpStatusCode};
use http::route_definition::RouteDefinition;
use http::server::{
    next_stage, refusal, BodyNeed, HttpCall, HttpServer, Moment, Plan, RequestInfo, Stage, Timespan,
};
use http::tls::TlsConfig;

type Answer = HttpResponse<HttpResponseBodyInitialized, ()>;

fn call(head: &'static str) -> HttpCall {
    let request =
        HttpRequest::parse(Bytes::from(head), PeerAddress::V4(9), 100).ok().unwrap();
    HttpCall::new(Connection::new(), request, 5)
}

fn route(method: HttpMethod, pattern: &str, handler: u8) -> RouteDefinition<u8> {
    RouteDefinition::new(method, pattern.to_string(), handler, vec![]).ok().unwrap()
}

fn server(cors: Option<Cors>) -> HttpServer<u8, ()> {
    let mut b = HttpServer::builder(80, vec![route(HttpMethod::GET, "/a/{x}", 1)])
        .route(route(HttpMethod::POST, "/a/{x}", 2))
        .route(route(HttpMethod::PATCH, "/b", 3));
    if let Some(cors) = cors {
        b = b.cors(cors);
    }
    b.build().0
}

#[test]
fn requests_go_to_their_routes() {
    let s = server(None);
    let mut c = call("POST /a/7?q=1 HTTP/1.1\r\n\r\n");
    match s.plan::<()>(&mut c) {
        Plan::Dispatch(r) => assert_eq!(r.handler, 2),
        _ => panic!("no route"),
    }
    assert_eq!(c.path_param("x"), Some("7"));
    assert_eq!(c.query_param("q"), Some("1"));
    assert!(!c.response::<()>().is_suppressed());
}

#[test]
fn a_request_for_the_head_goes_by_the_route_for_the_whole() {
    let s = server(None);
    let mut c = call("HEAD /a/7 HTTP/1.1\r\n\r\n");
    match s.plan::<()>(&mut c) {
        Plan::Dispatch(r) => assert_eq!(r.handler, 1),
        _ => panic!("no route"),
    }
    assert!(c.response::<()>().is_suppressed());
}

#[test]
fn unmatched_requests_are_answered() {
    let s = server(None);
    let mut c = call("GET /nowhere HTTP/1.1\r\n\r\n");
    match s.plan::<()>(&mut c) {
        Plan::Unmatched(r) => {
            assert_eq!(r.status(), HttpStatusCode::NotFound);
            assert_eq!(r.fields().get("allow"), None);
            assert_eq!(
                r.fields().get("x-request-id"),
                Some("00000000-0000-0000-0000-000000000005")
            );
        }
        _ => panic!("matched"),
    }
    let mut c = call("DELETE /a/7 HTTP/1.1\r\n\r\n");
    match s.plan::<()>(&mut c) {
        Plan::Unmatched(r) => {
            assert_eq!(r.status(), HttpStatusCode::MethodNotAllowed);
            assert_eq!(r.fields().get("allow"), Some("GET, POST, HEAD"));
            assert!(!r.has_body());
        }
        _ => panic!("matched"),
    }
    let mut c = call("OPTIONS /b HTTP/1.1\r\n\r\n");
    match s.plan::<()>(&mut c) {
        Plan::Unmatched(r) => assert_eq!(r.fields().get("allow"), Some("PATCH")),
        _ => panic!("matched"),
    }
}

#[test]
fn preflights_are_answered() {
    let cors = CorsBuilder::new()
        .only_origins()
        .add_origin("https://a.example")
        .add_method(HttpMethod::GET)
        .add_method(HttpMethod::PUT)
        .add_header("x-one")
        .add_header("x-two")
        .add_exposed_header("x-three")
        .allow_credentials(true)
        .max_age(600)
        .build();
    let s = server(Some(cors));
    let mut c = call(
        "OPTIONS /a/7 HTTP/1.1\r\nOrigin: HTTPS://A.example\r\nAccess-Control-Request-Method: put\r\n\r\n",
    );
    match s.plan::<()>(&mut c) {
        Plan::Preflight(r) => {
            let f = r.fields();
            assert_eq!(r.status(), HttpStatusCode::NoContent);
            assert_eq!(f.get("access-control-allow-origin"), Some("HTTPS://A.example"));
            assert_eq!(f.get("access-control-allow-credentials"), Some("true"));
            assert_eq!(f.get("access-control-allow-methods"), Some("GET,PUT"));
            assert_eq!(f.get("access-control-allow-headers"), Some("x-one,x-two"));
            assert_eq!(f.get("access-control-max-age"), Some("600"));
            assert_eq!(f.get("access-control-expose-headers"), Some("x-three"));
            assert_eq!(f.get("vary"), Some("Origin, Access-Control-Request-Headers"));
        }
        _ => panic!("no preflight"),
    }
    for head in [
        "OPTIONS / HTTP/1.1\r\nOrigin: https://b.example\r\nAccess-Control-Request-Method: GET\r\n\r\n",
        "OPTIONS / HTTP/1.1\r\nAccess-Control-Request-Method: GET\r\n\r\n",
        "OPTIONS / HTTP/1.1\r\nOrigin: https://a.example\r\n\r\n",
        "OPTIONS / HTTP/1.1\r\nOrigin: https://a.example\r\nAccess-Control-Request-Method: BREW\r\n\r\n",
        "OPTIONS / HTTP/1.1\r\nOrigin: https://a.example\r\nAccess-Control-Request-Method: DELETE\r\n\r\n",
    ] {
        match s.plan::<()>(&mut call(head)) {
            Plan::Preflight(r) => {
                assert_eq!(r.status(), HttpStatusCode::NoContent);
                assert_eq!(r.fields().len(), 1);
            }
            _ => panic!("no preflight"),
        }
    }
}

#[test]
fn any_origin_and_any_header() {
    let open = CorsBuilder::new().add_method(HttpMethod::GET).build();
    let head = "OPTIONS / HTTP/1.1\r\nOrigin: o\r\nAccess-Control-Request-Method: GET\r\nAccess-Control-Request-Headers: x-a, x-b\r\n\r\n";
    let r = open.handle_preflight::<()>(&call(head));
    assert_eq!(r.fields().get("access-control-allow-origin"), Some("*"));
    assert_eq!(r.fields().get("access-control-allow-headers"), Some("x-a, x-b"));
    assert_eq!(r.fields().get("vary"), Some("Access-Control-Request-Headers"));
    assert_eq!(r.fields().get("access-control-max-age"), None);
    let star = CorsBuilder::new().add_method(HttpMethod::GET).add_header("x").add_header("*").build();
    let r = star.handle_preflight::<()>(&call(head));
    assert_eq!(r.fields().get("access-control-allow-headers"), Some("x-a, x-b"));
    let trusting = CorsBuilder::default().add_method(HttpMethod::GET).allow_credentials(true).build();
    let r = trusting.handle_preflight::<()>(&call(head));
    assert_eq!(r.fields().get("access-control-allow-origin"), Some("o"));
}

#[test]
fn other_requests_are_told_what_the_policy_says() {
    let cors = CorsBuilder::new()
        .only_origins()
        .add_origin("o")
        .add_method(HttpMethod::GET)
        .add_exposed_header("x-a")
        .add_exposed_header("x-b")
        .build();
    let c = call("GET / HTTP/1.1\r\nOrigin: o\r\n\r\n");
    let r = cors.add_cors_headers(&c, c.response::<()>());
    assert_eq!(r.fields().get("access-control-allow-origin"), Some("o"));
    assert_eq!(r.fields().get("access-control-allow-credentials"), None);
    assert_eq!(r.fields().get("access-control-allow-methods"), Some("GET"));
    assert_eq!(r.fields().get("access-control-expose-headers"), Some("x-a,x-b"));
    assert_eq!(r.fields().get("vary"), Some("Origin"));
    let r = cors.apply_cors::<()>(&c, false).unwrap();
    assert_eq!(r.status(), HttpStatusCode::OK);
    assert_eq!(r.fields().get("vary"), Some("Origin"));
    let c = call("GET / HTTP/1.1\r\nOrigin: p\r\n\r\n");
    assert_eq!(cors.add_cors_headers(&c, c.response::<()>()).fields().len(), 1);
    assert!(cors.apply_cors::<()>(&c, false).is_none());
    let s = server(Some(cors));
    match s.plan::<()>(&mut call("GET /none HTTP/1.1\r\nOrigin: o\r\n\r\n")) {
        Plan::Unmatched(r) => {
            assert_eq!(r.fields().get("access-control-allow-origin"), Some("o"))
        }
        _ => panic!("matched"),
    }
}

#[test]
fn connections_stay_open_unless_closed() {
    let s = server(None);
    assert!(s.keep_alive(&mut call("GET / HTTP/1.1\r\n\r\n")));
    assert!(s.keep_alive(&mut call("GET / HTTP/1.1\r\nConnection: keep-alive\r\n\r\n")));
    assert!(!s.keep_alive(&mut call("GET / HTTP/1.1\r\nConnection: Close\r\n\r\n")));
}

#[test]
fn unreadable_requests_are_answered() {
    for (error, status) in [
        (HttpRequestError::PayloadTooLarge, HttpStatusCode::ContentTooLarge),
        (HttpRequestError::RequestLineTooLong, HttpStatusCode::UriTooLong),
        (HttpRequestError::HeadersTooLarge, HttpStatusCode::RequestHeaderFieldsTooLarge),
        (HttpRequestError::Timeout, HttpStatusCode::RequestTimeout),
        (HttpRequestError::InvalidHttpMethod(), HttpStatusCode::BadRequest),
    ] {
        let r: Answer = refusal(&error, 1);
        assert_eq!(r.status(), status);
        assert_eq!(&r.http_version()[..], b"HTTP/1.1");
        assert!(!r.has_body());
    }
}

#[test]
fn middleware_runs_until_one_answers() {
    let mut c = call("GET / HTTP/1.1\r\n\r\n");
    assert_eq!(next_stage(0, 2, &c), Stage::Middleware(0));
    assert_eq!(next_stage(1, 2, &c), Stage::Middleware(1));
    assert_eq!(next_stage(2, 2, &c), Stage::Handler);
    assert_eq!(next_stage(0, 0, &c), Stage::Handler);
    let r = c.response::<()>().empty();
    let mut cache = http::connection::DateCache::new();
    let _ = c.connection().write_response(r, &mut cache, 0, 0);
    assert!(c.response_sent());
    assert_eq!(next_stage(1, 2, &c), Stage::Finish);
}

#[test]
fn things_are_noted_on_a_call() {
    let mut c = call("GET / HTTP/1.1\r\nHost: h\r\nCookie: k=v\r\n\r\n");
    c.set_extras(" User ", "a");
    c.set_extras("USER", "b");
    c.set_extras("other", "c");
    assert_eq!(c.get_extras("user"), Some("a, b"));
    assert_eq!(c.get_extras("User"), None);
    assert_eq!(c.remove_extras("user"), Some("a, b".to_string()));
    assert_eq!(c.remove_extras("user"), None);
    assert_eq!(c.get_extras("other"), Some("c"));
    assert_eq!(c.host(), Some("h"));
    assert_eq!(c.cookie("k"), Some("v"));
    assert_eq!(c.route(), "/");
    assert_eq!(c.request_id(), 5);
    assert_eq!(c.client_ipv4_address(), Some(9));
    assert_eq!(c.client_ipv6_address(), None);
    assert_eq!(*c.method(), HttpMethod::GET);
}

#[test]
fn a_body_is_read_once() {
    let mut c = call(
        "POST / HTTP/1.1\r\nContent-Length: 3\r\nExpect: 100-Continue\r\nContent-Type: t\r\n\r\n",
    );
    assert_eq!(c.max_body_size(), 100);
    assert!(c.read_body().is_none());
    match c.body() {
        BodyNeed::Read { content_length, is_chunked, expects_continue, content_type } => {
            assert_eq!(content_length, 3);
            assert!(!is_chunked);
            assert!(expects_continue);
            assert_eq!(content_type, Some("t".to_string()));
        }
        _ => panic!("not to be read"),
    }
    assert!(matches!(c.body(), BodyNeed::Lost));
    c.set_body(Body::from_bytes(&Bytes::from("abc"), None));
    assert!(matches!(c.body(), BodyNeed::Present));
    assert_eq!(&c.read_body().unwrap().to_bytes()[..], b"abc");
}

#[test]
fn what_is_known_of_requests() {
    let start = Moment { secs: 1, nanos: 2 };
    let end = Moment { secs: 3, nanos: 4 };
    let info = RequestInfo::new(7, "/r", HttpMethod::PUT, start);
    assert_eq!(info.id(), 7);
    assert_eq!(info.route(), "/r");
    assert_eq!(*info.method(), HttpMethod::PUT);
    assert_eq!(info.started_at(), start);
    assert_eq!(info.ended_at(), None);
    assert_eq!(info.response_status(), None);
    let info = info.completed(HttpStatusCode::Created, end);
    assert_eq!(info.response_status(), Some(HttpStatusCode::Created));
    assert_eq!(info.ended_at(), Some(end));
}

#[test]
fn servers_are_built() {
    let b = HttpServer::<u8, u8>::builder(8080, vec![]);
    assert_eq!(b.port(), 8080);
    let (s, tls) = b.build();
    assert_eq!(s.request_timeout(), Timespan { secs: 60, nanos: 0 });
    assert_eq!(s.keep_alive_timeout(), Timespan { secs: 75, nanos: 0 });
    assert_eq!(s.restart_stability_window(), Timespan { secs: 5, nanos: 0 });
    assert_eq!(s.restart_pre_hook_timeout(), Timespan { secs: 30, nanos: 0 });
    assert_eq!(s.max_body_size(), 10 * 1024 * 1024);
    assert!(s.on_request_complete().is_none());
    assert!(tls.is_none());
    assert!(s.new_active_set().snapshot().is_none());
    let t = |secs: u64| Timespan { secs, nanos: 1 };
    let (s, tls) = HttpServer::<u8, u8>::builder(1, vec![])
        .request_timeout(t(1))
        .keep_alive_timeout(t(2))
        .restart_stability_window(t(3))
        .restart_pre_hook_timeout(t(4))
        .max_body_size(5)
        .on_request_complete(6)
        .tls(TlsConfig::SelfSigned { domains: vec!["localhost".to_string()] })
        .build();
    assert_eq!(s.request_timeout(), t(1));
    assert_eq!(s.keep_alive_timeout(), t(2));
    assert_eq!(s.restart_stability_window(), t(3));
    assert_eq!(s.restart_pre_hook_timeout(), t(4));
    assert_eq!(s.max_body_size(), 5);
    assert_eq!(s.on_request_complete(), Some(&6));
    assert!(matches!(tls, Some(TlsConfig::SelfSigned { .. })));
    assert!(s.new_active_set().snapshot().is_some());
}

#[test]
fn what_is_going_on_is_counted() {
    let mut set: ActiveSet<u8> = ActiveSet::new_with_telemetry(true);
    let a = set.insert(1, 10);
    let b = set.insert(2, 20);
    assert_eq!(set.len(), 2);
    assert!(set.contains(1));
    assert_eq!(set.get(2), Some(&20));
    a.update(&mut set, |n| n + 1);
    assert_eq!(a.value(&set), Some(&11));
    assert_eq!(a.id(), 1);
    assert_eq!(set.snapshot().unwrap().len(), 2);
    assert!(!set.release(a));
    assert!(!set.contains(1));
    assert_eq!(set.get(2), Some(&20));
    assert!(set.release(b));
    assert!(set.is_empty());
    let mut bare: ActiveSet<u8> = ActiveSet::new();
    let a = bare.insert(1, 10);
    a.update(&mut bare, |n| n + 1);
    assert!(!bare.contains(1));
    assert_eq!(a.value(&bare), None);
    assert!(bare.release(a));
}

#[test]
fn restarts_come_one_at_a_time() {
    let mut c = Control::new();
    assert!(matches!(c.step(ControlEvent::RestartRequested), ControlAction::Spawn));
    assert!(c.restart_in_progress());
    assert!(matches!(c.step(ControlEvent::RestartRequested), ControlAction::Continue));
    assert!(matches!(c.step(ControlEvent::Spawned(7)), ControlAction::Watch));
    assert!(matches!(c.step(ControlEvent::ChildGone), ControlAction::Continue));
    assert!(!c.restart_in_progress());
    assert!(matches!(c.step(ControlEvent::RestartRequested), ControlAction::Spawn));
    assert!(matches!(c.step(ControlEvent::SpawnFailed), ControlAction::Continue));
    assert!(matches!(c.step(ControlEvent::StopRequested), ControlAction::Stop { kill: None }));
    assert!(matches!(c.step(ControlEvent::RestartRequested), ControlAction::Spawn));
    assert!(matches!(c.step(ControlEvent::Spawned(8)), ControlAction::Watch));
    assert!(matches!(c.step(ControlEvent::StopRequested), ControlAction::Stop { kill: Some(8) }));
    assert!(matches!(
        c.step(ControlEvent::ChildStable { force: true }),
        ControlAction::HandOver { force: true }
    ));
}

#[test]
fn only_a_forced_restart_does_not_wait() {
    assert!(drains(&ControlAction::HandOver { force: false }));
    assert!(!drains(&ControlAction::HandOver { force: true }));
    assert!(drains(&ControlAction::Stop { kill: None }));
    assert!(!drains(&ControlAction::Continue));
}

#[test]
fn a_shared_guard_ends_with_its_last_holder() {
    let mut set: ActiveSet<u8> = ActiveSet::new_with_telemetry(true);
    let other = set.insert(2, 20);
    let mut shared = SharedGuard::new(set.insert(1, 10));
    shared.hold();
    shared.hold();
    assert_eq!(shared.holders(), 3);
    assert!(!shared.let_go(&mut set));
    shared.hold();
    assert!(!shared.let_go(&mut set));
    assert!(!shared.let_go(&mut set));
    assert_eq!(set.len(), 2);
    assert_eq!(shared.guard().value(&set), Some(&10));
    assert!(!shared.let_go(&mut set));
    assert_eq!(shared.holders(), 0);
    assert_eq!(set.len(), 1);
    assert!(!set.contains(1));
    assert!(set.contains(2));
    let mut last = SharedGuard::new(other);
    assert!(last.let_go(&mut set));
    assert!(set.is_empty());
}

#[test]
fn what_is_live_is_known_with_what_was_last_said() {
    let mut set: ActiveSet<&str> = ActiveSet::new_with_telemetry(true);
    let a = set.insert(1, "a");
    let b = set.insert(2, "b");
    b.update(&mut set, |_| "b2");
    set.release(a);
    let c = set.insert(1, "c");
    assert_eq!(set.len(), 2);
    assert_eq!(set.snapshot().unwrap().len(), 2);
    assert_eq!(set.get(1), Some(&"c"));
    assert_eq!(set.get(2), Some(&"b2"));
    set.release(c);
    set.release(b);
    assert_eq!(set.snapshot().unwrap().len(), 0);
}

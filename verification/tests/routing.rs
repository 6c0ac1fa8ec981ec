use http::request::HttpMethod;
use http::route_definition::{RouteDefinition, RouteDefinitionBuilder, RouteDefinitionError};
use http::router::Router;

fn route(method: HttpMethod, pattern: &str, handler: u8) -> RouteDefinition<u8> {
    RouteDefinition::new(method, pattern.to_string(), handler, vec![]).ok().unwrap()
}

fn found(router: &Router<u8>, method: HttpMethod, path: &str) -> Option<(u8, Vec<(String, String)>)> {
    router.find(&method, path).map(|m| {
        let params = m.params.iter().map(|(k, v)| (k.to_string(), v.to_string())).collect();
        (m.route.handler, params)
    })
}

fn pair(k: &str, v: &str) -> (String, String) {
    (k.to_string(), v.to_string())
}

#[test]
fn literals_go_before_parameters_and_parameters_before_the_catch_all() {
    let r = Router::build(vec![
        route(HttpMethod::GET, "/", 0),
        route(HttpMethod::GET, "/users/{id}", 1),
        route(HttpMethod::GET, "/users/me", 2),
        route(HttpMethod::GET, "/users/{id}/posts/{post}", 3),
        route(HttpMethod::GET, "/{__path__}", 4),
        route(HttpMethod::POST, "/users", 5),
    ]);
    assert_eq!(found(&r, HttpMethod::GET, "/"), Some((0, vec![])));
    assert_eq!(found(&r, HttpMethod::GET, "/users/me"), Some((2, vec![])));
    assert_eq!(found(&r, HttpMethod::GET, "/users/7"), Some((1, vec![pair("id", "7")])));
    assert_eq!(
        found(&r, HttpMethod::GET, "//users//7/posts/9/?q=1"),
        Some((3, vec![pair("id", "7"), pair("post", "9")]))
    );
    assert_eq!(
        found(&r, HttpMethod::GET, "/users/me/x//y"),
        Some((4, vec![pair("__path__", "users/me/x//y")]))
    );
    assert_eq!(found(&r, HttpMethod::POST, "/users"), Some((5, vec![])));
    assert_eq!(found(&r, HttpMethod::POST, "/users/7"), None);
    assert_eq!(found(&r, HttpMethod::PUT, "/"), None);
}

#[test]
fn the_next_is_tried_where_one_leads_nowhere() {
    let r = Router::build(vec![
        route(HttpMethod::GET, "/a/b/c", 1),
        route(HttpMethod::GET, "/a/{x}/d", 2),
        route(HttpMethod::GET, "/a/{__path__}", 3),
    ]);
    assert_eq!(found(&r, HttpMethod::GET, "/a/b/c"), Some((1, vec![])));
    assert_eq!(found(&r, HttpMethod::GET, "/a/b/d"), Some((2, vec![pair("x", "b")])));
    assert_eq!(found(&r, HttpMethod::GET, "/a/b/e"), Some((3, vec![pair("__path__", "b/e")])));
    assert_eq!(found(&r, HttpMethod::GET, "/a"), Some((3, vec![pair("__path__", "")])));
    assert_eq!(found(&r, HttpMethod::GET, "/"), None);
}

#[test]
fn a_parameter_keeps_its_first_name() {
    let r = Router::build(vec![
        route(HttpMethod::GET, "/{a}/x", 1),
        route(HttpMethod::GET, "/{b}/y", 2),
    ]);
    assert_eq!(found(&r, HttpMethod::GET, "/1/y"), Some((2, vec![pair("a", "1")])));
}

#[test]
fn a_later_catch_all_replaces_an_earlier_one() {
    let r = Router::build(vec![
        route(HttpMethod::GET, "/s/{__path__}", 1),
        route(HttpMethod::POST, "/s/{__path__}", 2),
    ]);
    assert_eq!(found(&r, HttpMethod::GET, "/s/x"), None);
    assert_eq!(found(&r, HttpMethod::POST, "/s/x"), Some((2, vec![pair("__path__", "x")])));
}

#[test]
fn the_first_of_equal_routes_answers() {
    let r = Router::build(vec![
        route(HttpMethod::GET, "/a", 1),
        route(HttpMethod::GET, "/a/", 2),
        route(HttpMethod::POST, "/a", 3),
    ]);
    assert_eq!(found(&r, HttpMethod::GET, "/a"), Some((1, vec![])));
    assert_eq!(found(&r, HttpMethod::POST, "/a"), Some((3, vec![])));
}

#[test]
fn many_literals() {
    let names = ["m", "c", "x", "a", "z", "cc", "b", "\u{e9}", "ab", "aa"];
    let routes = names
        .iter()
        .enumerate()
        .map(|(i, n)| route(HttpMethod::GET, &format!("/{n}"), i as u8))
        .collect();
    let r = Router::build(routes);
    for (i, n) in names.iter().enumerate() {
        assert_eq!(found(&r, HttpMethod::GET, &format!("/{n}")), Some((i as u8, vec![])));
    }
    assert_eq!(found(&r, HttpMethod::GET, "/d"), None);
}

#[test]
fn patterns_are_checked() {
    for (pattern, fault) in [
        ("", "route must start with '/'"),
        ("a", "route must start with '/'"),
        ("/{a{b}}", "unexpected '{' at byte index 3"),
        ("/a}", "unexpected '}' at byte index 2"),
        ("/\u{e9}{}", "empty parameter name at byte index 3"),
        ("/{1a}", "invalid parameter name '1a' (use [A-Za-z_][A-Za-z0-9_]*)"),
        ("/{a-b}", "invalid parameter name 'a-b' (use [A-Za-z_][A-Za-z0-9_]*)"),
        ("/{\u{e9}}", "invalid parameter name '\u{e9}' (use [A-Za-z_][A-Za-z0-9_]*)"),
        ("/{a", "unclosed '{' in route pattern"),
        ("/{__path__}/x", "catch-all {__path__} must be at the end of the route"),
    ] {
        match RouteDefinition::new(HttpMethod::GET, pattern.to_string(), 0u8, vec![]) {
            Err(RouteDefinitionError::InvalidPattern(s)) => assert_eq!(s, fault),
            Ok(_) => panic!("accepted"),
        }
    }
    for pattern in ["/", "/a/{b}/{_c9}", "/x{y}z", "/{__path__}", "/a/{__path__}/"] {
        assert!(RouteDefinition::<u8>::validate_route(pattern).is_ok());
    }
    assert_eq!(
        RouteDefinitionError::InvalidPattern("x".to_string()).message(),
        "invalid route pattern: x"
    );
}

#[test]
fn routes_are_built() {
    let r = RouteDefinitionBuilder::new("/a".to_string())
        .middleware(1u8)
        .method(HttpMethod::PUT)
        .handler(9)
        .middleware(2)
        .build()
        .ok()
        .unwrap();
    assert_eq!(r.pattern, "/a");
    assert_eq!(r.method, HttpMethod::PUT);
    assert_eq!(r.handler, 9);
    assert_eq!(r.middleware, vec![1, 2]);
    assert!(RouteDefinitionBuilder::new("a".to_string()).handler(0u8).build().is_err());
    let r = RouteDefinitionBuilder::new("/".to_string()).handler(0u8).build().ok().unwrap();
    assert_eq!(r.method, HttpMethod::GET);
}

#[test]
fn slashes_outside_of_the_catch_all_make_no_difference() {
    let r = Router::build(vec![
        route(HttpMethod::GET, "/a/{x}/b", 1),
        route(HttpMethod::GET, "/s/{__path__}", 2),
    ]);
    let plain = found(&r, HttpMethod::GET, "/a/7/b");
    assert_eq!(plain, Some((1, vec![pair("x", "7")])));
    for path in ["//a/7/b", "/a//7/b", "/a/7//b", "/a/7/b/", "///a///7///b///"] {
        assert_eq!(found(&r, HttpMethod::GET, path), plain);
    }
    let caught = found(&r, HttpMethod::GET, "/s/x/y");
    assert_eq!(caught, Some((2, vec![pair("__path__", "x/y")])));
    assert_eq!(found(&r, HttpMethod::GET, "//s//x/y"), caught);
    assert_eq!(
        found(&r, HttpMethod::GET, "/s/x//y/"),
        Some((2, vec![pair("__path__", "x//y/")]))
    );
    assert_eq!(found(&r, HttpMethod::GET, "/a/7"), None);
    assert_eq!(found(&r, HttpMethod::GET, "/a/7/"), None);
}

#[test]
fn a_later_route_leaves_the_others_reachable() {
    let first = || vec![route(HttpMethod::GET, "/a/{x}", 1), route(HttpMethod::GET, "/{__path__}", 2)];
    let before = Router::build(first());
    let mut routes = first();
    routes.push(route(HttpMethod::GET, "/a/b", 3));
    let after = Router::build(routes);
    assert_eq!(found(&before, HttpMethod::GET, "/a/b").map(|m| m.0), Some(1));
    assert_eq!(found(&after, HttpMethod::GET, "/a/b").map(|m| m.0), Some(3));
    for path in ["/a/c", "/", "/x/y"] {
        assert_eq!(found(&after, HttpMethod::GET, path), found(&before, HttpMethod::GET, path));
    }
}

#[test]
fn routes_can_be_registered_one_by_one() {
    let mut r = Router::build(vec![route(HttpMethod::GET, "/m", 1)]);
    for (i, p) in ["/z", "/a", "/m/{x}", "/k/{__path__}"].iter().enumerate() {
        r.insert(route(HttpMethod::GET, p, i as u8 + 2));
    }
    assert_eq!(found(&r, HttpMethod::GET, "/m"), Some((1, vec![])));
    assert_eq!(found(&r, HttpMethod::GET, "/z"), Some((2, vec![])));
    assert_eq!(found(&r, HttpMethod::GET, "/a"), Some((3, vec![])));
    assert_eq!(found(&r, HttpMethod::GET, "/m/1"), Some((4, vec![pair("x", "1")])));
    assert_eq!(found(&r, HttpMethod::GET, "/k/1"), Some((5, vec![pair("__path__", "1")])));
    r.insert(route(HttpMethod::GET, "/k/{__path__}", 9));
    assert_eq!(found(&r, HttpMethod::GET, "/k/1"), Some((9, vec![pair("__path__", "1")])));
    assert_eq!(found(&r, HttpMethod::GET, "/z"), Some((2, vec![])));
}

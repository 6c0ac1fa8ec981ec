use http::attributes::{
    check_handler, check_static_handler, resolve_crate, route_key, static_key, static_route,
    validate_route_literal, ArgumentType, AttributeKey, CrateFound, HandlerSignature, ReturnType,
    SignaturePart, StaticPart,
};
use http::route_definition::RouteDefinition;

#[test]
fn paths_to_the_crate() {
    assert_eq!(resolve_crate(CrateFound::Itself, "http"), "crate");
    assert_eq!(resolve_crate(CrateFound::Name("my-http".to_string()), "http"), "::my_http");
    assert_eq!(resolve_crate(CrateFound::Missing, "http"), "::http");
}

fn sig(is_async: bool, inputs: usize, takes_call: bool, returns_unit: bool) -> HandlerSignature {
    let last_segment = Some(if takes_call { "HttpCall" } else { "Other" }.to_string());
    let argument = ArgumentType::Reference { mutable: true, last_segment };
    let output = if returns_unit { ReturnType::Nothing } else { ReturnType::Other };
    HandlerSignature { is_async, inputs, argument, output }
}

#[test]
fn handlers_are_checked() {
    assert_eq!(check_handler(&sig(true, 1, true, true)), None);
    assert_eq!(
        check_handler(&sig(false, 1, true, true)),
        Some((SignaturePart::Function, "#[route] requires an `async fn`"))
    );
    assert_eq!(
        check_handler(&sig(true, 2, true, true)),
        Some((
            SignaturePart::Inputs,
            "#[route] handler must take exactly one argument: `&mut HttpCall`"
        ))
    );
    assert_eq!(
        check_handler(&sig(true, 1, false, true)),
        Some((SignaturePart::Inputs, "#[route] handler argument must be `&mut HttpCall`"))
    );
    assert_eq!(
        check_handler(&sig(true, 1, true, false)),
        Some((SignaturePart::Output, "#[route] handler must return `()` (future output = ())"))
    );
    assert_eq!(check_static_handler(&sig(true, 1, true, true)), None);
    assert_eq!(
        check_static_handler(&sig(false, 0, false, false)),
        Some((SignaturePart::Function, "#[static_files] requires an `async fn`"))
    );
    for inputs in [0, 2] {
        assert_eq!(
            check_static_handler(&sig(true, inputs, true, true)),
            Some((
                SignaturePart::Inputs,
                "#[static_files] handler must take exactly one argument: `&mut HttpCall`"
            ))
        );
    }
    assert_eq!(
        check_static_handler(&sig(true, 1, false, true)),
        Some((SignaturePart::Inputs, "#[static_files] handler argument must be `&mut HttpCall`"))
    );
    assert_eq!(
        check_static_handler(&sig(true, 1, true, false)),
        Some((
            SignaturePart::Output,
            "#[static_files] handler must return `()` (future output = ())"
        ))
    );
}

#[test]
fn arguments_by_name() {
    assert_eq!(route_key("method"), Ok(AttributeKey::Method));
    assert_eq!(route_key("middleware"), Ok(AttributeKey::Middleware));
    assert_eq!(
        route_key("dir"),
        Err("unknown #[route] argument; expected `method = ...` or `middleware = [...]`")
    );
    assert_eq!(static_key("dir"), Ok(AttributeKey::Dir));
    assert_eq!(static_key("index"), Ok(AttributeKey::Index));
    assert_eq!(static_key("middleware"), Ok(AttributeKey::Middleware));
    assert_eq!(
        static_key("method"),
        Err("unknown argument; expected `dir`, `index`, or `middleware`")
    );
}

#[test]
fn route_literals_are_checked() {
    for (route, fault) in [
        ("", "route must start with '/' (e.g., '/user/{id}')"),
        ("/{a", "unclosed '{' at byte index 1"),
        ("/x{}", "empty parameter name at byte index 2"),
        (
            "/{__path__}",
            "parameter name '__path__' is reserved (names wrapped in `__` are for internal use only)",
        ),
        (
            "/{__}",
            "parameter name '__' is reserved (names wrapped in `__` are for internal use only)",
        ),
        ("/{9}", "invalid parameter name '9': must start with [A-Za-z_]"),
        ("/{a{b}", "invalid parameter name 'a{b': use [A-Za-z_][A-Za-z0-9_]*"),
        ("/{a\u{e9}}", "invalid parameter name 'a\u{e9}': use [A-Za-z_][A-Za-z0-9_]*"),
        ("/a}", "unexpected '}' at byte index 2"),
    ] {
        assert_eq!(validate_route_literal(route), Err(fault.to_string()));
    }
    for route in ["/", "/user/{id}", "/{_a}/{b9}/c", "/x{y}z"] {
        assert_eq!(validate_route_literal(route), Ok(()));
        assert!(RouteDefinition::<u8>::validate_route(route).is_ok());
    }
}

#[test]
fn static_routes_are_checked() {
    assert_eq!(static_route("/assets", "public").unwrap(), "/assets/{__path__}");
    assert_eq!(static_route("/", "./a..b/c").unwrap(), "/{__path__}");
    assert_eq!(static_route("", "a").unwrap(), "/{__path__}");
    for route in ["/{x}", "/x}"] {
        assert_eq!(static_route(route, "public").unwrap_err().0, StaticPart::Route);
    }
    for dir in ["..", "a/..", "../a", "a/../b"] {
        assert_eq!(static_route("/", dir).unwrap_err().0, StaticPart::Dir);
    }
    for route in ["/", "/assets", "/a/b/"] {
        let pattern = static_route(route, "public").unwrap();
        assert!(RouteDefinition::<u8>::validate_route(&pattern).is_ok());
    }
}

#[test]
fn argument_and_return_types() {
    let with = |argument: ArgumentType, output: ReturnType| HandlerSignature {
        is_async: true,
        inputs: 1,
        argument,
        output,
    };
    let reference = |mutable: bool, last: Option<&str>| ArgumentType::Reference {
        mutable,
        last_segment: last.map(str::to_string),
    };
    assert!(with(reference(true, Some("HttpCall")), ReturnType::Nothing).takes_call());
    assert!(!with(reference(false, Some("HttpCall")), ReturnType::Nothing).takes_call());
    assert!(!with(reference(true, Some("httpcall")), ReturnType::Nothing).takes_call());
    assert!(!with(reference(true, None), ReturnType::Nothing).takes_call());
    assert!(!with(ArgumentType::Other, ReturnType::Nothing).takes_call());
    for (output, unit) in [
        (ReturnType::Nothing, true),
        (ReturnType::Tuple(0), true),
        (ReturnType::Tuple(1), false),
        (ReturnType::Other, false),
    ] {
        let sig = with(reference(true, Some("HttpCall")), output);
        assert_eq!(sig.returns_unit(), unit);
        assert_eq!(check_handler(&sig).is_none(), unit);
        assert_eq!(check_static_handler(&sig).is_none(), unit);
    }
}

use http::cors::{AllowedOrigin, CorsBuilder};
use http::request::HttpMethod;

#[test]
fn builder_collects_the_policy() {
    let cors = CorsBuilder::new()
        .only_origins()
        .add_origin("https://a.example")
        .add_method(HttpMethod::GET)
        .add_header("x-one")
        .add_exposed_header("x-two")
        .allow_credentials(true)
        .max_age(600)
        .build();
    assert!(matches!(&cors.allowed_origin, AllowedOrigin::Only(v) if v.len() == 1 && v[0] == "https://a.example"));
    assert_eq!(cors.allowed_methods, vec![HttpMethod::GET]);
    assert_eq!(cors.allowed_headers, vec!["x-one".to_string()]);
    assert_eq!(cors.exposed_headers, vec!["x-two".to_string()]);
    assert!(cors.allow_credentials);
    assert_eq!(cors.max_age, Some(600));
}

#[test]
fn calls_on_different_settings_can_be_swapped() {
    let a = CorsBuilder::new()
        .add_method(HttpMethod::PUT)
        .add_header("x")
        .add_method(HttpMethod::GET)
        .add_method(HttpMethod::PUT)
        .allow_credentials(true)
        .max_age(1)
        .max_age(2)
        .allow_credentials(false)
        .only_origins()
        .add_origin("o")
        .add_origin("o")
        .build();
    let b = CorsBuilder::new()
        .allow_any_origin()
        .only_origins()
        .max_age(1)
        .add_origin("o")
        .allow_credentials(true)
        .add_header("x")
        .add_method(HttpMethod::PUT)
        .allow_credentials(false)
        .add_method(HttpMethod::GET)
        .add_origin("o")
        .max_age(2)
        .add_method(HttpMethod::PUT)
        .build();
    for cors in [a, b] {
        assert!(matches!(&cors.allowed_origin, AllowedOrigin::Only(v) if v == &["o", "o"]));
        assert_eq!(
            cors.allowed_methods,
            vec![HttpMethod::PUT, HttpMethod::GET, HttpMethod::PUT]
        );
        assert_eq!(cors.allowed_headers, vec!["x".to_string()]);
        assert_eq!(cors.exposed_headers, Vec::<String>::new());
        assert!(!cors.allow_credentials);
        assert_eq!(cors.max_age, Some(2));
    }
}

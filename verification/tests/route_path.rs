use axum::http::Method;
use halyard_tachys::route_path::{PathError, RouteError, RoutePath, RouteRegistry};

/// Paths on both sides of every rule in axum's and matchit's path checks, with whether
/// axum routes them.
const PATHS: &[(&str, bool)] = &[
    ("/", true),
    ("", false),
    ("a", false),
    ("a/b", false),
    ("/a", true),
    ("/a/", true),
    ("/a/b/c", true),
    ("/{id}", true),
    ("/a/{id}", true),
    ("/a/{id}/b", true),
    ("/a/{*rest}", true),
    ("/{*rest}", true),
    ("/a{id}", true),
    ("/a{b", false),
    ("/a}b", false),
    ("/a{{b", true),
    ("/a}}b", true),
    ("/a{{b}}", true),
    ("/{{id}}", true),
    ("/{{{id}", true),
    ("/{}", false),
    ("/{*}", false),
    ("/{**}", false),
    ("/{a*b}", false),
    ("/{a/b}", false),
    ("/{/a}", true),
    ("/{a{b}", true),
    ("/{a}}", false),
    ("/{a}}b}", true),
    ("/{a}b", false),
    ("/{a}{b}", false),
    ("/{a}/{b}", true),
    ("/{*rest}/x", false),
    ("/{*rest}x", false),
    ("/:id", false),
    ("/a/:id", false),
    ("/*rest", false),
    ("/a/*", false),
    ("/a:b", true),
    ("/a*b", true),
    ("/{:id}", true),
    ("/café/{id}", true),
    ("/a//b", true),
];

#[test]
fn route_path_accepts_what_axum_accepts() {
    assert!(RoutePath::parse("/a{{b").is_ok() && RoutePath::parse("/a/{id}").is_ok());
    assert!(RoutePath::parse("/a{b").is_err() && RoutePath::parse("").is_err());
    for &(path, routed) in PATHS {
        assert_eq!(RoutePath::parse(path).is_ok(), routed, "path {path:?}: {:?}", RoutePath::parse(path));
    }
}

#[test]
fn route_path_allows_at_most_25_parameters() {
    let path = |n: usize| (0..n).map(|i| format!("/{{p{i}}}")).collect::<String>();
    assert!(RoutePath::parse(&path(25)).is_ok());
    assert_eq!(RoutePath::parse(&path(26)).err(), Some(PathError::TooManyParams));
}

/// Why each of the rejected paths is rejected.
#[test]
fn route_path_names_why_it_refuses_a_path() {
    assert_eq!(RoutePath::parse("a").err(), Some(PathError::NoLeadingSlash));
    assert_eq!(RoutePath::parse("/a/:id").err(), Some(PathError::ColonSegment));
    assert_eq!(RoutePath::parse("/a/*").err(), Some(PathError::StarSegment));
    assert_eq!(RoutePath::parse("/a{b").err(), Some(PathError::InvalidParam));
    assert_eq!(RoutePath::parse("/{a}b").err(), Some(PathError::InvalidParamSegment));
    assert_eq!(RoutePath::parse("/{*rest}/x").err(), Some(PathError::CatchAllNotLast));
}

/// Registers each `(path, method)` in turn and returns for each whether it was refused.
fn registry_refusals(routes: &[(&str, Method)]) -> Vec<bool> {
    let mut registry = RouteRegistry::default();
    routes.iter().map(|(path, method)| registry.register(path, method).is_err()).collect()
}

/// The routes of each case, with whether axum refuses each of them, in turn, on one router.
#[test]
fn registry_refuses_what_axum_refuses() {
    let get = || Method::GET;
    let cases: &[(&[(&str, Method)], &[bool])] = &[
        (&[("/a", get()), ("/a", get())], &[false, true]),
        (&[("/a", get()), ("/a", Method::POST), ("/a", Method::HEAD)], &[false, false, false]),
        (&[("/a", Method::POST), ("/a", get()), ("/a", Method::POST)], &[false, false, true]),
        (&[("/u/{id}", get()), ("/u/{name}", get())], &[false, true]),
        (&[("/u/{id}", get()), ("/u/{name}", Method::POST)], &[false, true]),
        (&[("/u/{id}", get()), ("/u/{id}", Method::POST)], &[false, false]),
        (&[("/u/{id}/a", get()), ("/u/{name}/b", get())], &[false, false]),
        (&[("/u/{id}/a", get()), ("/u/{name}/a", get())], &[false, true]),
        (&[("/f/{*a}", get()), ("/f/{*b}", get())], &[false, true]),
        (&[("/f/{a}", get()), ("/f/{*b}", get())], &[false, true]),
        (&[("/f/{*b}", get()), ("/f/{a}", get())], &[false, true]),
        (&[("/f/{*b}", get()), ("/f/{a}/c", get())], &[false, true]),
        (&[("/f/{a}", get()), ("/f/x", get())], &[false, false]),
        (&[("/f/x", get()), ("/f/{a}", get())], &[false, false]),
        (&[("/f/{*a}", get()), ("/f/x", get()), ("/f/x/y", get())], &[false, false, false]),
        (&[("/f/{*a}", get()), ("/f/", get()), ("/f", get())], &[false, false, false]),
        (&[("/", get()), ("/{*rest}", get()), ("/{id}", get())], &[false, false, true]),
        (&[("/a{{b", get()), ("/a{b}", get()), ("/a{c}", get())], &[false, false, true]),
        (&[("/x{a}", get()), ("/x/{a}", get()), ("/x", get())], &[false, false, false]),
        (&[("/x/{a}/{b}", get()), ("/x/{c}", get()), ("/x/{c}/", get())], &[false, false, false]),
        (&[("/p/{a}", get()), ("/p/{b}/q", get()), ("/p/{c}/r", get())], &[false, false, false]),
    ];
    for (routes, axum_refused) in cases {
        assert_eq!(registry_refusals(routes), axum_refused.to_vec(), "routes {routes:?}");
    }
    assert_eq!(registry_refusals(&[("/u/{id}", get()), ("/u/{name}", get())]), [false, true]);
    assert_eq!(registry_refusals(&[("/f/{a}", get()), ("/f/x", get())]), [false, false]);
}

#[test]
fn registry_refuses_methods_axum_cannot_filter() {
    let mut registry = RouteRegistry::default();
    let purge = Method::from_bytes(b"PURGE").expect("a valid method");

    assert_eq!(
        registry.register("/api/f", &purge),
        Err(RouteError::UnsupportedMethod { path: "/api/f".to_owned(), method: purge })
    );
}

/// Every method axum can filter is routed.
#[test]
fn registry_routes_every_method_axum_can_filter() {
    let mut registry = RouteRegistry::default();
    for method in [
        Method::GET,
        Method::POST,
        Method::PUT,
        Method::DELETE,
        Method::PATCH,
        Method::HEAD,
        Method::OPTIONS,
        Method::TRACE,
        Method::CONNECT,
    ] {
        assert!(registry.register("/api/f", &method).is_ok(), "{method} should be routed");
    }
}

/// Each refusal names what it refused, and a refused route leaves the registry as it was.
#[test]
fn registry_errors_name_the_route() {
    let mut registry = RouteRegistry::new();
    assert_eq!(
        registry.register("/u/{", &Method::GET),
        Err(RouteError::InvalidPath { path: "/u/{".to_owned(), reason: PathError::InvalidParam })
    );
    assert!(registry.register("/u/{id}", &Method::GET).is_ok());
    assert_eq!(
        registry.register("/u/{id}", &Method::GET),
        Err(RouteError::Duplicate { path: "/u/{id}".to_owned(), method: Method::GET })
    );
    assert_eq!(
        registry.register("/u/{name}", &Method::POST),
        Err(RouteError::Conflict { path: "/u/{name}".to_owned(), existing: "/u/{id}".to_owned() })
    );
    // the refused path was not recorded: its second method is refused for the same reason
    assert_eq!(
        registry.register("/u/{name}", &Method::PUT),
        Err(RouteError::Conflict { path: "/u/{name}".to_owned(), existing: "/u/{id}".to_owned() })
    );
    assert!(registry.register("/u/{id}", &Method::POST).is_ok());
}

/// Two paths conflict when they are the same up to parameter names, or have two different
/// wildcards in one place; a path that begins another does not conflict with it.
#[test]
fn conflicts_are_found_past_the_common_beginning() {
    let parse = |path: &str| RoutePath::parse(path).unwrap();
    assert!(parse("/u/{id}").conflicts_with(&parse("/u/{name}")));
    assert!(parse("/f/{a}").conflicts_with(&parse("/f/{*b}")));
    assert!(!parse("/f/{a}").conflicts_with(&parse("/f/x")));
    assert!(!parse("/f").conflicts_with(&parse("/f/x")));
    assert!(parse("/same").conflicts_with(&parse("/same")));
    // either way round
    assert!(parse("/f/{*b}").conflicts_with(&parse("/f/{a}")));
    assert!(!parse("/f/x").conflicts_with(&parse("/f/{a}")));
    assert!(!parse("/f/x").conflicts_with(&parse("/f")));
}

use halyard_tachys::request_error::{accepts_html, content_type_header, error_body, matched_route, redirect_to, RequestError};
use halyard_tachys::server_paths::{
    data_script, site_pkg_dir_service_route_path, static_file_path, static_path, to_axum_path, PathSegment,
};

/// Parameters and catch-alls are written in axum's syntax, and literal braces twice.
#[test]
fn router_paths_become_axum_paths() {
    let path = vec![
        PathSegment::Static("users".into()),
        PathSegment::Param("id".into()),
        PathSegment::Splat("rest".into()),
    ];
    assert_eq!(to_axum_path(&path), "/users/{id}/{*rest}");
    assert_eq!(to_axum_path(&vec![PathSegment::Static("a{b}".into())]), "/a{{b}}");
    assert_eq!(to_axum_path(&vec![PathSegment::Static("/x".into()), PathSegment::Unit]), "/x");
    assert_eq!(to_axum_path(&vec![PathSegment::Static("a".into()), PathSegment::OptionalParam("p".into())]), "/a/");
    assert_eq!(to_axum_path(&vec![]), "");
}

/// A static page is a file named after its path, `index` for the root and for a directory.
#[test]
fn static_pages_are_written_to_html_files() {
    assert_eq!(static_file_path("site", "/"), "site/index.html");
    assert_eq!(static_file_path("site", "/about"), "site/about.html");
    assert_eq!(static_file_path("site", "//x/y"), "site/x/y.html");
    assert_eq!(static_path("site", "/blog/"), "site/blog/index.html");
    assert_eq!(static_path("site", "/"), "site/index.html");
    assert_eq!(static_path("site", "/blog"), "site/blog.html");
}

/// The package directory is routed with a catch-all under it, with one slash on each side.
#[test]
fn the_package_directory_route_has_one_slash_on_each_side() {
    assert_eq!(site_pkg_dir_service_route_path("pkg"), "/pkg/{*path}");
    assert_eq!(site_pkg_dir_service_route_path("/pkg/"), "/pkg/{*path}");
    assert_eq!(site_pkg_dir_service_route_path(""), "/{*path}");
}

#[test]
fn each_chunk_of_data_is_a_script_with_the_nonce() {
    assert_eq!(data_script(" nonce=\"abc\"", "x=1;"), "<script nonce=\"abc\">x=1;</script>");
    assert_eq!(data_script("", ""), "<script></script>");
}

/// A request with no path is a bad request; the other errors are the server's.
#[test]
fn request_errors_have_their_status() {
    assert_eq!(RequestError::NoPath { target: "example.com:443".into() }.status(), 400);
    assert_eq!(RequestError::NoMatchedPath.status(), 500);
    assert_eq!(RequestError::UnknownRoute { path: "/x".into() }.status(), 500);
    assert_eq!(error_body("Bad Request", Some("7")), "Bad Request (request id 7)\n");
    assert_eq!(error_body("Internal Server Error", None), "Internal Server Error\n");
}

#[test]
fn the_matched_route_is_found_by_its_path() {
    let routes = vec!["/a".to_string(), "/b".to_string()];
    assert_eq!(matched_route(&routes, Some("/b")), Ok(1));
    assert_eq!(matched_route(&routes, Some("/c")), Err(RequestError::UnknownRoute { path: "/c".into() }));
    assert_eq!(matched_route(&routes, None), Err(RequestError::NoMatchedPath));
}

/// A header value holds visible bytes and tabs only.
#[test]
fn an_invalid_content_type_is_refused() {
    assert!(content_type_header("text/html; charset=utf-8").is_ok());
    assert_eq!(
        content_type_header("bad\nvalue").err(),
        Some(RequestError::InvalidContentType { content_type: "bad\nvalue".into() })
    );
}

/// A redirect sets the location, and a 302 for a request that asks for HTML; a location
/// that is not a header value is refused.
#[test]
fn redirects_set_the_location_and_a_302_for_pages() {
    let page = redirect_to("/login", Some("text/html,application/xhtml+xml")).unwrap();
    assert_eq!(page.location, "/login");
    assert!(page.found);
    assert!(!redirect_to("/x", Some("*/*")).unwrap().found);
    assert!(!redirect_to("/x", None).unwrap().found);
    assert_eq!(
        redirect_to("/x\r\nSet-Cookie: a", None).err(),
        Some(RequestError::InvalidRedirect { location: "/x\r\nSet-Cookie: a".into() })
    );
    assert!(accepts_html(Some("application/json, text/html")));
    assert!(!accepts_html(Some("text/plain")));
}

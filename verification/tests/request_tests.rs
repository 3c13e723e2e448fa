use tinyserve::request::{dispatch, parse_request_line};
use tinyserve::router::{Method, Router};

#[test]
fn parses_well_formed_request_line() {
    let r = parse_request_line("GET / HTTP/1.1");
    assert_eq!(r, Some((Method::GET, String::from("/"))));
}

#[test]
fn parses_post_request_line() {
    let r = parse_request_line("POST /x HTTP/1.1");
    assert_eq!(r, Some((Method::POST, String::from("/x"))));
}

#[test]
fn parses_two_token_line() {
    let r = parse_request_line("GET /hello");
    assert_eq!(r, Some((Method::GET, String::from("/hello"))));
}

#[test]
fn empty_line_is_malformed() {
    assert_eq!(parse_request_line(""), None);
}

#[test]
fn single_token_line_is_malformed() {
    assert_eq!(parse_request_line("GET"), None);
}

#[test]
fn unknown_method_is_malformed() {
    assert_eq!(parse_request_line("PATCH / HTTP/1.1"), None);
    assert_eq!(parse_request_line("get / HTTP/1.1"), None);
}

#[test]
fn double_space_gives_empty_path_token() {
    let r = parse_request_line("GET  / HTTP/1.1");
    assert_eq!(r, Some((Method::GET, String::from(""))));
}

#[test]
fn dispatch_matches_registered_route() {
    let mut r: Router<i32> = Router::new();
    r.insert(Method::GET, "/", 1);
    assert_eq!(dispatch(&r, "GET / HTTP/1.1"), Some(&1));
}

#[test]
fn dispatch_missing_route_is_fallback() {
    let mut r: Router<i32> = Router::new();
    r.insert(Method::GET, "/", 1);
    assert_eq!(dispatch(&r, "GET /missing HTTP/1.1"), None);
}

#[test]
fn dispatch_empty_line_is_fallback() {
    let mut r: Router<i32> = Router::new();
    r.insert(Method::GET, "/", 1);
    assert_eq!(dispatch(&r, ""), None);
}

#[test]
fn dispatch_unregistered_method_is_fallback() {
    let mut r: Router<i32> = Router::new();
    r.insert(Method::GET, "/", 1);
    assert_eq!(dispatch(&r, "POST / HTTP/1.1"), None);
}

#[test]
fn dispatch_ignores_everything_after_second_token() {
    let mut r: Router<i32> = Router::new();
    r.insert(Method::GET, "/a", 4);
    assert_eq!(dispatch(&r, "GET /a HTTP/1.1 junk trailing"), Some(&4));
}

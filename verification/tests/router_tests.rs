use tinyserve::router::{Method, Node, Router};

#[test]
fn insert_then_lookup_returns_handler() {
    let mut r: Router<i32> = Router::new();
    r.insert(Method::GET, "/hello", 7);
    assert_eq!(r.lookup(Method::GET, "/hello"), Some(&7));
}

#[test]
fn lookup_ignores_leading_trailing_duplicate_slashes() {
    let mut r: Router<i32> = Router::new();
    r.insert(Method::GET, "/a/b", 1);
    assert_eq!(r.lookup(Method::GET, "/a/b"), Some(&1));
    assert_eq!(r.lookup(Method::GET, "//a/b/"), Some(&1));
    assert_eq!(r.lookup(Method::GET, "a/b"), Some(&1));
    assert_eq!(r.lookup(Method::GET, "/a//b"), Some(&1));
}

#[test]
fn insert_normalizes_slashes_too() {
    let mut r: Router<i32> = Router::new();
    r.insert(Method::GET, "//x/", 3);
    assert_eq!(r.lookup(Method::GET, "/x"), Some(&3));
}

#[test]
fn reinsert_overwrites_handler() {
    let mut r: Router<i32> = Router::new();
    r.insert(Method::GET, "/same", 1);
    r.insert(Method::GET, "/same", 2);
    assert_eq!(r.lookup(Method::GET, "/same"), Some(&2));
}

#[test]
fn lookup_without_routes_is_none() {
    let r: Router<i32> = Router::new();
    assert_eq!(r.lookup(Method::GET, "/"), None);
    assert_eq!(r.lookup(Method::POST, "/anything"), None);
}

#[test]
fn lookup_unregistered_method_is_none() {
    let mut r: Router<i32> = Router::new();
    r.insert(Method::GET, "/", 5);
    assert_eq!(r.lookup(Method::POST, "/"), None);
    assert_eq!(r.lookup(Method::DELETE, "/"), None);
}

#[test]
fn lookup_unmatched_path_is_none() {
    let mut r: Router<i32> = Router::new();
    r.insert(Method::GET, "/a/b", 1);
    assert_eq!(r.lookup(Method::GET, "/a"), None);
    assert_eq!(r.lookup(Method::GET, "/a/b/c"), None);
    assert_eq!(r.lookup(Method::GET, "/missing"), None);
}

#[test]
fn root_route() {
    let mut r: Router<i32> = Router::new();
    r.insert(Method::GET, "/", 9);
    assert_eq!(r.lookup(Method::GET, "/"), Some(&9));
    assert_eq!(r.lookup(Method::GET, "//"), Some(&9));
}

#[test]
fn methods_route_independently() {
    let mut r: Router<i32> = Router::new();
    r.insert(Method::GET, "/x", 1);
    r.insert(Method::POST, "/x", 2);
    assert_eq!(r.lookup(Method::GET, "/x"), Some(&1));
    assert_eq!(r.lookup(Method::POST, "/x"), Some(&2));
}

#[test]
fn node_insert_and_get() {
    let mut n: Node<i32> = Node::new("/");
    n.insert("x/y", 3);
    assert_eq!(n.get("x/y"), Some(&3));
    assert_eq!(n.get("/x/y/"), Some(&3));
    assert_eq!(n.get("x"), None);
    assert_eq!(n.get("x/y/z"), None);
}

#[test]
fn sibling_routes_stay_distinct() {
    let mut r: Router<i32> = Router::new();
    r.insert(Method::GET, "/a", 1);
    r.insert(Method::GET, "/b", 2);
    r.insert(Method::GET, "/a/c", 3);
    assert_eq!(r.lookup(Method::GET, "/a"), Some(&1));
    assert_eq!(r.lookup(Method::GET, "/b"), Some(&2));
    assert_eq!(r.lookup(Method::GET, "/a/c"), Some(&3));
}

use anyhow::Result;
use threadpool_rs::http_server::{CallError, HandlerFn, Method, Node, RouteError, Router};
use threadpool_rs::path::split_path;

fn echo_sleep() -> Result<String> {
    Ok(String::from("sleep"))
}

fn echo() -> Result<String> {
    Ok(String::from("no sleep"))
}

fn second() -> Result<String> {
    Ok(String::from("second"))
}

fn broken() -> Result<String> {
    Err(anyhow::Error::msg("out of order"))
}

fn body_of(handler: &HandlerFn) -> String {
    handler().unwrap()
}

#[test]
fn radix_node() {
    let mut node = Node::new("/");
    node.insert("/", echo);
    node.insert("/echo", echo);
    node.insert("/echo/2", echo);

    let f = node.get("/").unwrap();
    assert_eq!(f().unwrap(), "no sleep");
    let f = node.get("/echo").unwrap();
    assert_eq!(f().unwrap(), "no sleep");
    let f = node.get("/echo/2").unwrap();
    assert_eq!(f().unwrap(), "no sleep");
}

#[test]
fn router() {
    let mut router: Router<HandlerFn> = Router::new();
    router.insert(Method::Get, "/", echo);
    router.insert(Method::Get, "/sleep", echo_sleep);
}

#[test]
fn split_path_skips_empty_segments() {
    assert_eq!(split_path("/"), Vec::<String>::new());
    assert_eq!(split_path(""), Vec::<String>::new());
    assert_eq!(split_path("/echo"), vec![String::from("echo")]);
    assert_eq!(split_path("/echo/"), vec![String::from("echo")]);
    assert_eq!(split_path("//echo///2//"), vec![String::from("echo"), String::from("2")]);
    assert_eq!(split_path("a/b/c"), vec![String::from("a"), String::from("b"), String::from("c")]);
}

#[test]
fn empty_node_has_no_route() {
    let node: Node<HandlerFn> = Node::new("/");
    assert_eq!(node.get("/").err(), Some(RouteError::NoRoute));
    assert_eq!(node.get("/echo").err(), Some(RouteError::NoRoute));
}

#[test]
fn trailing_slash_is_ignored() {
    let mut node: Node<HandlerFn> = Node::new("/");
    node.insert("/echo", echo);
    assert_eq!(body_of(node.get("/echo/").unwrap()), "no sleep");

    let mut node: Node<HandlerFn> = Node::new("/");
    node.insert("/echo/", second);
    assert_eq!(body_of(node.get("/echo").unwrap()), "second");
}

#[test]
fn root_resolves_only_the_root() {
    let mut node: Node<HandlerFn> = Node::new("/");
    node.insert("/", echo);
    assert_eq!(body_of(node.get("/").unwrap()), "no sleep");
    assert_eq!(node.get("/anything").err(), Some(RouteError::NoRoute));
}

#[test]
fn root_without_handler_is_no_route() {
    let mut node: Node<HandlerFn> = Node::new("/");
    node.insert("/echo", echo);
    assert_eq!(node.get("/").err(), Some(RouteError::NoRoute));
}

#[test]
fn prefix_routes_do_not_bleed() {
    let mut node: Node<HandlerFn> = Node::new("/");
    node.insert("/echo", echo);
    node.insert("/echo/2", second);
    assert_eq!(body_of(node.get("/echo").unwrap()), "no sleep");
    assert_eq!(body_of(node.get("/echo/2").unwrap()), "second");
}

#[test]
fn intermediate_node_has_no_handler() {
    let mut node: Node<HandlerFn> = Node::new("/");
    node.insert("/a/b/c", echo);
    assert_eq!(node.get("/a").err(), Some(RouteError::NoRoute));
    assert_eq!(node.get("/a/b").err(), Some(RouteError::NoRoute));
    assert_eq!(node.get("/a/b/c/d").err(), Some(RouteError::NoRoute));
    assert_eq!(node.get("/a/x").err(), Some(RouteError::NoRoute));
    assert_eq!(body_of(node.get("/a/b/c").unwrap()), "no sleep");
    node.insert("/a", second);
    assert_eq!(body_of(node.get("/a").unwrap()), "second");
    assert_eq!(body_of(node.get("/a/b/c").unwrap()), "no sleep");
}

#[test]
fn segments_match_whole_keys_only() {
    let mut node: Node<HandlerFn> = Node::new("/");
    node.insert("/echo", echo);
    assert_eq!(node.get("/ech").err(), Some(RouteError::NoRoute));
    assert_eq!(node.get("/echoo").err(), Some(RouteError::NoRoute));
    assert_eq!(node.get("/Echo").err(), Some(RouteError::NoRoute));
}

#[test]
fn last_insertion_wins() {
    let mut node: Node<HandlerFn> = Node::new("/");
    node.insert("/echo", echo);
    node.insert("/echo", second);
    assert_eq!(body_of(node.get("/echo").unwrap()), "second");

    let mut router: Router<HandlerFn> = Router::new();
    router.insert(Method::Post, "/echo", echo);
    router.insert(Method::Post, "/echo", second);
    assert_eq!(body_of(router.lookup(Method::Post, "/echo").unwrap()), "second");
}

#[test]
fn methods_are_kept_apart() {
    let mut router: Router<HandlerFn> = Router::new();
    router.get("/echo", echo);
    assert_eq!(body_of(router.lookup(Method::Get, "/echo").unwrap()), "no sleep");
    assert_eq!(router.lookup(Method::Post, "/echo").err(), Some(RouteError::MethodNotSupported));

    router.post("/other", second);
    assert_eq!(router.lookup(Method::Post, "/echo").err(), Some(RouteError::NoRoute));
    assert_eq!(router.lookup(Method::Get, "/other").err(), Some(RouteError::NoRoute));
    assert_eq!(body_of(router.lookup(Method::Post, "/other").unwrap()), "second");
}

#[test]
fn empty_router_supports_no_method() {
    let router: Router<HandlerFn> = Router::new();
    assert_eq!(router.lookup(Method::Get, "/").err(), Some(RouteError::MethodNotSupported));
    assert_eq!(router.lookup(Method::Post, "/").err(), Some(RouteError::MethodNotSupported));
}

#[test]
fn call_frames_the_reply() {
    let mut router: Router<HandlerFn> = Router::new();
    router.get("/", echo);
    let text = router.call(Method::Get, "/").unwrap();
    assert_eq!(text, "HTTP/1.1 200 OK\r\nContent-Length: 8\r\n\r\nno sleep");
}

#[test]
fn call_reports_missing_routes() {
    let mut router: Router<HandlerFn> = Router::new();
    router.get("/", echo);
    assert!(matches!(
        router.call(Method::Get, "/nowhere"),
        Err(CallError::Route(RouteError::NoRoute))
    ));
    assert!(matches!(
        router.call(Method::Post, "/"),
        Err(CallError::Route(RouteError::MethodNotSupported))
    ));
}

#[test]
fn call_hands_on_the_failure_of_a_handler() {
    let mut router: Router<HandlerFn> = Router::new();
    router.get("/broken", broken);
    match router.call(Method::Get, "/broken") {
        Err(CallError::Handler(e)) => assert_eq!(e.to_string(), "out of order"),
        other => panic!("unexpected outcome: {:?}", other),
    }
}

#[test]
fn route_errors_in_words() {
    assert_eq!(RouteError::NoRoute.message(), "no route available");
    assert_eq!(RouteError::MethodNotSupported.message(), "method not support");
}

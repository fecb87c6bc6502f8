use threadpool_rs::http_server::{respond, CallError, Method};
use threadpool_rs::request::{parse_request_line, RequestError};
use threadpool_rs::response::{frame_response, push_decimal};
use threadpool_rs::text::split_on;

#[test]
fn split_on_keeps_empty_fields() {
    assert_eq!(split_on("", ' '), vec![String::new()]);
    assert_eq!(split_on("GET", ' '), vec![String::from("GET")]);
    assert_eq!(
        split_on("GET / HTTP/1.1", ' '),
        vec![String::from("GET"), String::from("/"), String::from("HTTP/1.1")]
    );
    assert_eq!(
        split_on(" a  b ", ' '),
        vec![String::new(), String::from("a"), String::new(), String::from("b"), String::new()]
    );
    assert_eq!(split_on("é/ü", '/'), vec![String::from("é"), String::from("ü")]);
}

#[test]
fn request_line_gives_method_and_path() {
    let request = parse_request_line("GET /echo HTTP/1.1\r\n").unwrap();
    assert_eq!(request.method, Method::Get);
    assert_eq!(request.path, "/echo");

    let request = parse_request_line("POST /echo/2").unwrap();
    assert_eq!(request.method, Method::Post);
    assert_eq!(request.path, "/echo/2");
}

#[test]
fn request_line_with_one_field_is_malformed() {
    assert_eq!(parse_request_line("").err(), Some(RequestError::Malformed));
    assert_eq!(parse_request_line("GET").err(), Some(RequestError::Malformed));
    assert_eq!(parse_request_line("GET/echo\r\n").err(), Some(RequestError::Malformed));
}

#[test]
fn request_line_with_unknown_method_is_refused() {
    assert_eq!(parse_request_line("PUT /echo").err(), Some(RequestError::MethodNotSupported));
    assert_eq!(parse_request_line("get /echo").err(), Some(RequestError::MethodNotSupported));
    assert_eq!(parse_request_line(" GET /echo").err(), Some(RequestError::MethodNotSupported));
}

#[test]
fn request_line_with_two_spaces_has_an_empty_path() {
    let request = parse_request_line("GET  /echo").unwrap();
    assert_eq!(request.method, Method::Get);
    assert_eq!(request.path, "");
}

#[test]
fn request_errors_in_words() {
    assert_eq!(RequestError::Malformed.message(), "request error");
    assert_eq!(RequestError::MethodNotSupported.message(), "method not support");
}

#[test]
fn decimal_has_no_leading_zeros() {
    let mut text = String::from("n=");
    push_decimal(&mut text, 0);
    assert_eq!(text, "n=0");
    push_decimal(&mut text, 7);
    push_decimal(&mut text, 10);
    push_decimal(&mut text, 1234567890);
    assert_eq!(text, "n=07101234567890");
    let mut text = String::new();
    push_decimal(&mut text, usize::MAX);
    assert_eq!(text, usize::MAX.to_string());
}

#[test]
fn response_carries_the_length_in_bytes() {
    assert_eq!(frame_response(""), "HTTP/1.1 200 OK\r\nContent-Length: 0\r\n\r\n");
    assert_eq!(frame_response("sleep"), "HTTP/1.1 200 OK\r\nContent-Length: 5\r\n\r\nsleep");
    assert_eq!(
        frame_response("0123456789ab"),
        "HTTP/1.1 200 OK\r\nContent-Length: 12\r\n\r\n0123456789ab"
    );
    assert_eq!(frame_response("é"), "HTTP/1.1 200 OK\r\nContent-Length: 2\r\n\r\né");
}

#[test]
fn respond_frames_a_body_and_hands_on_a_failure() {
    assert_eq!(
        respond(Ok(String::from("no sleep"))).unwrap(),
        "HTTP/1.1 200 OK\r\nContent-Length: 8\r\n\r\nno sleep"
    );
    match respond(Err(anyhow::Error::msg("out of order"))) {
        Err(CallError::Handler(e)) => assert_eq!(e.to_string(), "out of order"),
        other => panic!("unexpected outcome: {:?}", other),
    }
}

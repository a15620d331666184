use micro_http_async::{HttpMethod, Request};

fn parse(raw: &str) -> Request {
    Request::new(raw.to_string(), "127.0.0.1:5000".to_string())
}

#[test]
fn parses_method_uri_and_agent() {
    let r = parse("GET /foo HTTP/1.1\r\nUser-Agent: testclient\r\n\r\n");
    assert_eq!(r.method, Some(HttpMethod::Get));
    assert_eq!(r.uri, "/foo");
    assert_eq!(r.user_agent, "testclient");
    assert_eq!(r.client_address, "127.0.0.1:5000");
}

#[test]
fn first_method_token_wins() {
    let r = parse("POST /x HTTP/1.1\r\nX-Note: GET is not here\r\n\r\n");
    assert_eq!(r.method, Some(HttpMethod::Post));
    assert_eq!(r.uri, "/x");
}

#[test]
fn method_found_in_a_later_line() {
    let r = parse("FETCH /x HTTP/1.1\r\nX-Note: DELETE me\r\nX-Other: PUT\r\n\r\n");
    assert_eq!(r.method, Some(HttpMethod::Delete));
}

#[test]
fn every_method_keyword_is_recognised() {
    let cases = [
        ("GET", HttpMethod::Get),
        ("POST", HttpMethod::Post),
        ("HEAD", HttpMethod::Head),
        ("PUT", HttpMethod::Put),
        ("DELETE", HttpMethod::Delete),
        ("CONNECT", HttpMethod::Connect),
        ("OPTIONS", HttpMethod::Options),
        ("TRACE", HttpMethod::Trace),
    ];
    for (word, method) in cases {
        let r = parse(&format!("{} /m HTTP/1.1\r\n\r\n", word));
        assert_eq!(r.method, Some(method));
    }
}

#[test]
fn lowercase_method_is_not_recognised() {
    let r = parse("get /x HTTP/1.1\r\nHost: a\r\n\r\n");
    assert_eq!(r.method, None);
    assert_eq!(r.uri, "/x");
}

#[test]
fn user_agent_defaults_to_none() {
    let r = parse("GET / HTTP/1.1\r\nHost: example\r\n\r\n");
    assert_eq!(r.user_agent, "none");
}

#[test]
fn user_agent_from_first_marked_line() {
    let r = parse("GET / HTTP/1.1\r\nX-A: 1\r\nUser-Agent: first/1.0 (x)\r\nUser-Agent: second\r\n\r\n");
    assert_eq!(r.user_agent, "first/1.0 (x)");
}

#[test]
fn user_agent_needs_the_space_after_the_colon() {
    let r = parse("GET / HTTP/1.1\r\nUser-Agent:tight\r\n\r\n");
    assert_eq!(r.user_agent, "none");
}

#[test]
fn raw_request_keeps_every_line() {
    let r = parse("GET /a HTTP/1.1\r\nHost: h\r\n\r\n");
    assert_eq!(r.raw_request, vec!["GET /a HTTP/1.1", "Host: h", "", ""]);
}

#[test]
fn split_keeps_lone_carriage_returns_and_newlines() {
    let lines = Request::split_to_row("a\rb\nc\r\r\nd".to_string());
    assert_eq!(lines, vec!["a\rb\nc\r", "d"]);
    let empty = Request::split_to_row(String::new());
    assert_eq!(empty, vec![""]);
}

#[test]
fn uri_is_not_decoded() {
    let r = parse("GET /a%20b?x=1 HTTP/1.1\r\n\r\n");
    assert_eq!(r.uri, "/a%20b?x=1");
}

#[test]
fn well_formed_needs_two_tokens() {
    assert!(Request::is_well_formed(&"GET / HTTP/1.1\r\n\r\n".to_string()));
    assert!(Request::is_well_formed(&"GET /".to_string()));
    assert!(!Request::is_well_formed(&"GET\r\n/ HTTP/1.1".to_string()));
    assert!(!Request::is_well_formed(&String::new()));
}

#[test]
fn get_method_on_lines() {
    let lines = vec!["X y".to_string(), "z OPTIONS".to_string()];
    assert_eq!(Request::get_method(&lines), Some(HttpMethod::Options));
    assert_eq!(Request::get_uri(&lines), "y");
    assert_eq!(Request::get_user_agent(&lines), "none");
}

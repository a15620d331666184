use micro_http_async::{respond, DataType, Request, Route, Routes};

type Handler = fn(Request) -> Result<String, String>;

fn hi(_: Request) -> Result<String, String> {
    Ok("hi".to_string())
}

fn not_found(r: Request) -> Result<String, String> {
    Ok(format!("no page at {}", r.uri))
}

fn boom(_: Request) -> Result<String, String> {
    Err("boom".to_string())
}

fn request(uri: &str) -> Request {
    Request::new(format!("GET {} HTTP/1.1\r\n\r\n", uri), "10.0.0.1:1".to_string())
}

fn dispatch(routes: &Routes<Handler>, req: Request) -> Option<DataType> {
    match routes.get_route(&req) {
        Route::Handler(h) => Some(respond(h(req))),
        _ => None,
    }
}

fn text(d: Option<DataType>) -> String {
    match d {
        Some(DataType::Text(t)) => t,
        _ => panic!("expected a text body"),
    }
}

#[test]
fn dispatches_to_registered_route() {
    let mut routes: Routes<Handler> = Routes::new();
    routes.add_route("/".to_string(), hi);
    assert_eq!(text(dispatch(&routes, request("/"))), "hi");
}

#[test]
fn unknown_route_goes_to_fallback() {
    let mut routes: Routes<Handler> = Routes::new();
    routes.add_route("/".to_string(), hi);
    routes.add_route("err".to_string(), not_found);
    assert_eq!(text(dispatch(&routes, request("/missing"))), "no page at /missing");
}

#[test]
fn unknown_route_without_fallback_is_missing() {
    let mut routes: Routes<Handler> = Routes::new();
    routes.add_route("/".to_string(), hi);
    assert!(matches!(routes.get_route(&request("/missing")), Route::Missing));
}

#[test]
fn handler_failure_gives_empty_text() {
    let mut routes: Routes<Handler> = Routes::new();
    routes.add_route("/b".to_string(), boom);
    let body = text(dispatch(&routes, request("/b")));
    assert_eq!(body, "");
    assert!(!body.contains("boom"));
}

#[test]
fn respond_keeps_success_text() {
    match respond(Ok("page".to_string())) {
        DataType::Text(t) => assert_eq!(t, "page"),
        DataType::Bytes(_) => panic!("expected text"),
    }
}

#[test]
fn re_registering_replaces_the_handler() {
    let mut routes: Routes<Handler> = Routes::new();
    routes.add_route("/".to_string(), hi);
    routes.add_route("/".to_string(), boom);
    assert_eq!(text(dispatch(&routes, request("/"))), "");
}

#[test]
fn keys_are_exact_and_case_sensitive() {
    let mut routes: Routes<Handler> = Routes::new();
    routes.add_route("/a".to_string(), hi);
    assert!(matches!(routes.get_route(&request("/a/")), Route::Missing));
    assert!(matches!(routes.get_route(&request("/A")), Route::Missing));
    assert!(routes.get_handler(&"/a".to_string()).is_some());
    assert!(routes.get_handler(&"/b".to_string()).is_none());
}

#[test]
fn static_uris_bypass_the_table() {
    let mut routes: Routes<Handler> = Routes::new();
    routes.add_route("/static/a.css".to_string(), hi);
    match routes.get_route(&request("/static/a.css")) {
        Route::Static(path) => assert_eq!(path, "./static/a.css"),
        _ => panic!("expected the static branch"),
    }
    match routes.get_route(&request("/img/unstatic.png")) {
        Route::Static(path) => assert_eq!(path, "./img/unstatic.png"),
        _ => panic!("expected the static branch"),
    }
}

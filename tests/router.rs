use server::{Headers, Method, Request, Response, Routed, Router, StatusCode};

fn simple_callback(_req: &Request) -> Response {
    Response::ok("Callback response")
}

fn request_to(method: &str, path: &str) -> Request {
    let vec = vec![
        ("Content-Type", "application/json"),
        ("Authorization", "Bearer token"),
    ];
    Request {
        method: method.into(),
        path: path.into(),
        headers: Headers::from(&vec),
        body: String::new(),
    }
}

#[test]
fn test_router_with_callback() {
    let mut router = Router::new();

    router.insert_callback("/test", simple_callback);

    let vec = vec![
        ("Content-Type", "application/json"),
        ("Authorization", "Bearer token"),
    ];
    let headers = Headers::from(&vec);

    let request: Request = Request {
        method: "GET".into(),
        path: "/test".into(),
        headers: headers,
        body: String::new(),
    };

    let response = match router.handle_request(&request) {
        Routed::Respond(response) => response,
        Routed::File(_) => panic!("a callback route answered with a file"),
    };

    assert_eq!(String::from_utf8_lossy(&response.body), "Callback response");
    assert_eq!(response.status, StatusCode::OK);
}

#[test]
fn test_router_not_found() {
    let router: Router<fn(&Request) -> Response> = Router::new();

    let vec = vec![
        ("Content-Type", "application/json"),
        ("Authorization", "Bearer token"),
    ];
    let headers = Headers::from(&vec);

    let request: Request = Request {
        method: "GET".into(),
        path: "/test".into(),
        headers: headers,
        body: String::new(),
    };

    let response = match router.handle_request(&request) {
        Routed::Respond(response) => response,
        Routed::File(_) => panic!("an empty router answered with a file"),
    };

    assert_eq!(response.status, StatusCode::NOTFOUND);
}

#[test]
fn unrouted_path_is_not_found_whatever_the_request() {
    let mut router: Router<fn(&Request) -> Response> = Router::new();
    router.insert_callback("/known", simple_callback);
    router.insert_file("/page", "page.html");
    for (method, path, body) in [
        ("GET", "/unknown", ""),
        ("POST", "/other?x=1", "a=b"),
        ("DELETE", "/Known", "payload"),
    ] {
        let mut request = request_to(method, path);
        request.body = body.to_string();
        match router.handle_request(&request) {
            Routed::Respond(response) => {
                assert_eq!(response.status, StatusCode::NOTFOUND);
                assert_eq!(response.body, b"404\n");
            }
            Routed::File(_) => panic!("an unknown path was routed to a file"),
        }
    }
}

#[test]
fn file_route_names_its_file_and_query_is_ignored() {
    let mut router: Router<fn(&Request) -> Response> = Router::new();
    router.insert_file("/index.html", "./static/index.html");
    match router.handle_request(&request_to("GET", "/index.html?v=2")) {
        Routed::File(f) => assert_eq!(f, "./static/index.html"),
        Routed::Respond(_) => panic!("a file route answered directly"),
    }
}

#[test]
fn later_registration_replaces_the_handler() {
    let mut router: Router<fn(&Request) -> Response> = Router::new();
    router.insert_file("/x", "x.html");
    router.insert_callback("/x", |_| Response::ok("replaced"));
    match router.handle_request(&request_to("GET", "/x")) {
        Routed::Respond(response) => assert_eq!(response.body, b"replaced"),
        Routed::File(_) => panic!("the replaced file route was kept"),
    }
}

#[test]
fn callback_gets_the_request_and_its_answer_is_kept() {
    let mut router: Router<fn(&Request) -> Response> = Router::new();
    router.insert_callback("/echo", |req| {
        let mut res = Response::internal_err(&req.body);
        res.headers.insert("X-Method".to_string(), format!("{:?}", req.method));
        res
    });
    let mut request = request_to("PATCH", "/echo");
    request.body = "hello".to_string();
    assert_eq!(request.method, Method::PATCH);
    match router.handle_request(&request) {
        Routed::Respond(response) => {
            assert_eq!(response.status, StatusCode::INTERNALERR);
            assert_eq!(response.body, b"hello");
            assert_eq!(response.headers.get("X-Method"), Some(&"PATCH".to_string()));
        }
        Routed::File(_) => panic!("a callback route answered with a file"),
    }
}

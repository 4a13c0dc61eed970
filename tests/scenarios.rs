use server::{
    merge_cookies, parse_url_param, FileRead, Headers, Method, Request, Response, Routed,
    Router, StatusCode,
};

type Callback = fn(&Request) -> Response;

fn answer(router: &Router<Callback>, request: &Request) -> Response {
    let mut response = match router.handle_request(request) {
        Routed::Respond(response) => response,
        Routed::File(f) => Response::file(&f, FileRead::NotOpened),
    };
    merge_cookies(request, &mut response);
    response
}

fn api_login(req: &Request) -> Response {
    if req.method != Method::POST {
        return Response::internal_err("Only post requests are allowed");
    }
    let body = match parse_url_param(&req.body) {
        Ok(b) => b,
        Err(_) => return Response::internal_err("Couldn't parse body parameters"),
    };
    let email = match body.get("email") {
        Some(v) => v,
        None => return Response::internal_err("Missing email"),
    };
    let password = match body.get("password") {
        Some(v) => v,
        None => return Response::internal_err("Missing password"),
    };
    Response::ok(&format!("Email: {}, Password: {}\n", email, password))
}

#[test]
fn test_login_handler() {
    let mut router: Router<Callback> = Router::new();
    router.insert_file(r"/index.html", "./static/index.html");
    router.insert_callback(r"/", |_| Response::redirect("/index.html"));

    let login_handler = |req: &Request| {
        if req.method != Method::GET && req.method != Method::POST {
            return Response::internal_err("Only get or post requests are allowed");
        }

        let mut query = match req.path.parse_params() {
            Ok(q) => q,
            Err(_) => return Response::internal_err("Couldn't parse query parameters"),
        };

        let body = match parse_url_param(&req.body) {
            Ok(b) => b,
            Err(_) => return Response::internal_err("Couldn't parse body parameters"),
        };

        for (key, value) in body.iter() {
            query.insert(key.clone(), value.clone());
        }

        let email = match query.get("email") {
            Some(v) => v,
            None => return Response::internal_err("Missing email"),
        };

        let password = match query.get("password") {
            Some(v) => v,
            None => return Response::internal_err("Missing password"),
        };

        let response = format!("Email: {}, Password: {}\n", email, password);
        Response::ok(&response)
    };

    let vec = vec![
        ("Content-Type", "application/json"),
        ("Authorization", "Bearer token"),
    ];
    let headers = Headers::from(&vec);

    let req = Request {
        method: Method::GET,
        path: "/login?email=test@example.com&password=123456".into(),
        headers: headers,
        body: String::new(),
    };
    let response = login_handler(&req);

    assert_eq!(response.status, StatusCode::OK);
    assert_eq!(
        String::from_utf8(response.body).unwrap(),
        "Email: test@example.com, Password: 123456\n"
    );

    let vec = vec![
        ("Content-Type", "application/json"),
        ("Authorization", "Bearer token"),
    ];
    let headers = Headers::from(&vec);
    let req = Request {
        method: Method::POST,
        path: "/login".into(),
        headers: headers,
        body: "email=post@example.com&password=654321".to_string(),
    };
    let response = login_handler(&req);

    assert_eq!(response.status, StatusCode::OK);
    assert_eq!(
        String::from_utf8(response.body).unwrap(),
        "Email: post@example.com, Password: 654321\n"
    );

    let vec = vec![
        ("Content-Type", "application/json"),
        ("Authorization", "Bearer token"),
    ];
    let headers = Headers::from(&vec);
    let req = Request {
        method: Method::PUT,
        path: "/login".into(),
        headers,
        body: String::new(),
    };
    let response = login_handler(&req);

    assert_eq!(response.status, StatusCode::INTERNALERR);
    assert_eq!(
        String::from_utf8(response.body).unwrap(),
        "Only get or post requests are allowed"
    );
}

#[test]
fn root_redirects_to_index() {
    let mut router: Router<Callback> = Router::new();
    router.insert_callback("/", |_| Response::redirect("/index.html"));
    let request = Request::parse("GET / HTTP/1.1\n\n").unwrap();
    let response = answer(&router, &request);
    assert_eq!(response.status, StatusCode::REDIRECT);
    assert_eq!(
        response.headers.get("Location"),
        Some(&"/index.html".to_string())
    );
    assert!(response.body.is_empty());
    let wire = String::from_utf8(response.to_bytes()).unwrap();
    assert!(wire.starts_with("HTTP/1.1 301\n"));
    assert!(wire.contains("Location: /index.html\n"));
    assert!(wire.ends_with("\n\n"));
}

#[test]
fn login_api_wants_post() {
    let mut router: Router<Callback> = Router::new();
    router.insert_callback("/api/login", api_login);

    let get = Request::parse("GET /api/login HTTP/1.1\n\n").unwrap();
    let response = answer(&router, &get);
    assert_eq!(response.status, StatusCode::INTERNALERR);
    assert_eq!(response.body, b"Only post requests are allowed");

    let post = Request::parse(
        "POST /api/login HTTP/1.1\nContent-Type: application/x-www-form-urlencoded\n\nemail=a@b.com&password=x",
    )
    .unwrap();
    let response = answer(&router, &post);
    assert_eq!(response.status, StatusCode::OK);
    assert_eq!(response.body, b"Email: a@b.com, Password: x\n");
}

#[test]
fn unknown_method_is_served_as_get() {
    let mut router: Router<Callback> = Router::new();
    router.insert_callback("/", |req| Response::ok(&format!("{:?} {}", req.method, req.body)));
    let foo = Request::parse("FOO / HTTP/1.1\nCookie: a=1\n\nbody").unwrap();
    let get = Request::parse("GET / HTTP/1.1\nCookie: a=1\n\nbody").unwrap();
    assert_eq!(foo.method, get.method);
    let foo_wire = answer(&router, &foo).to_bytes();
    let get_wire = answer(&router, &get).to_bytes();
    assert_eq!(foo_wire, get_wire);
    assert_eq!(
        String::from_utf8(get_wire).unwrap(),
        "HTTP/1.1 200\nContent-Type: text/plain\nSet-Cookie: a=1\n\nGET body"
    );
}

#[test]
fn serialized_ok_response_has_status_header_and_body() {
    let mut response = Response::ok("Test body");
    response.status = StatusCode::OK;
    let wire = String::from_utf8(response.to_bytes()).unwrap();
    assert!(wire.starts_with("HTTP/1.1 200"));
    assert!(wire.contains("Content-Type: text/plain"));
    assert!(wire.ends_with("Test body"));
    assert_eq!(wire, "HTTP/1.1 200\nContent-Type: text/plain\n\nTest body");
}

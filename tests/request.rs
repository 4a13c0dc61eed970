use server::request::{BAD_HEADERS, NO_PATH};
use server::{Method, Request};

#[test]
fn test_request_read_from() {
    let request_str = "\
        GET /index.html HTTP/1.1\r\n\
        Host: www.example.com\r\n\
        User-Agent: rust-test\r\n\
        \r\n\
        Este es el cuerpo de la solicitud.";

    let result = Request::parse(request_str);

    assert!(result.is_ok(), "La lectura falló");

    let request = result.unwrap();

    assert_eq!(request.method, Method::GET, "El método falló");
    assert_eq!(request.path.to_string(), "/index.html", "La ruta falló");
    assert_eq!(
        request.headers.get("Host"),
        Some(&"www.example.com".to_string()),
        "El encabezado Host falló"
    );
    assert_eq!(
        request.headers.get("User-Agent"),
        Some(&"rust-test".to_string()),
        "El encabezado User-Agent falló"
    );
    assert_eq!(
        request.body, "Este es el cuerpo de la solicitud.",
        "El cuerpo de la solicitud falló"
    );
}

#[test]
fn request_line_without_space_has_no_path() {
    assert_eq!(Request::parse("GET").err(), Some(NO_PATH));
    assert_eq!(Request::parse("").err(), Some(NO_PATH));
    assert_eq!(Request::parse("GET\nHost: a\n\n").err(), Some(NO_PATH));
}

#[test]
fn bad_header_line_fails_the_request() {
    assert_eq!(
        Request::parse("GET / HTTP/1.1\nHost example.com\n\nbody").err(),
        Some(BAD_HEADERS)
    );
    assert_eq!(
        Request::parse("GET / HTTP/1.1\n: empty\n\n").err(),
        Some(BAD_HEADERS)
    );
}

#[test]
fn request_line_alone_gives_empty_headers_and_body() {
    let request = Request::parse("POST /submit").unwrap();
    assert_eq!(request.method, Method::POST);
    assert_eq!(request.path.data, "/submit");
    assert_eq!(request.headers.len(), 0);
    assert_eq!(request.body, "");
}

#[test]
fn body_keeps_its_line_breaks() {
    let request = Request::parse("PUT /x HTTP/1.1\nA: 1\n\nline one\nline two\n").unwrap();
    assert_eq!(request.method, Method::PUT);
    assert_eq!(request.body, "line one\nline two\n");
    assert_eq!(request.headers.get("A"), Some(&"1".to_string()));
}

#[test]
fn headers_without_blank_line_leave_empty_body() {
    let request = Request::parse("GET /a?b=c HTTP/1.1\nA: 1\nB: 2").unwrap();
    assert_eq!(request.headers.len(), 2);
    assert_eq!(request.body, "");
    assert_eq!(request.path.params, Some("b=c".to_string()));
}

#[test]
fn empty_target_after_single_space() {
    let request = Request::parse("GET \n\n").unwrap();
    assert_eq!(request.path.data, "");
    assert_eq!(request.body, "");
}

#[test]
fn unknown_method_token_parses_as_get() {
    let request = Request::parse("FOO / HTTP/1.1\n\n").unwrap();
    assert_eq!(request.method, Method::GET);
    assert_eq!(request.path.data, "/");
}

#[test]
fn method_token_is_first_line_up_to_space() {
    assert_eq!(Request::method_token("FOO / HTTP/1.1\nHost: a\n\n"), "FOO");
    assert_eq!(Request::method_token("GET"), "GET");
    assert_eq!(Request::method_token("POST\n/x y"), "POST");
    assert_eq!(Request::method_token(""), "");
}

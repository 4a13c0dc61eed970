use server::Method;

#[test]
fn test_methods() {
    assert_eq!(Method::from("GET"), Method::GET);
    assert_eq!(Method::from("POST"), Method::POST);
    assert_eq!(Method::from("PUT"), Method::PUT);
    assert_eq!(Method::from("DELETE"), Method::DELETE);
    assert_eq!(Method::from("PATCH"), Method::PATCH);
}

#[test]
fn test_unrecognized_method() {
    assert_eq!(Method::from("UNKNOWN"), Method::GET);
    assert_eq!(Method::from("HEAD"), Method::GET);
    assert_eq!(Method::from("OPTIONS"), Method::GET);
    assert_eq!(Method::from(""), Method::GET);
}

#[test]
fn method_names_are_case_sensitive() {
    assert_eq!(Method::from("post"), Method::GET);
    assert_eq!(Method::from("Patch"), Method::GET);
    assert_eq!(Method::from(" GET"), Method::GET);
    assert_eq!(Method::from("DELETE"), Method::DELETE);
}

#[test]
fn known_method_names() {
    for name in ["GET", "POST", "PUT", "DELETE", "PATCH"] {
        assert!(Method::is_known(name));
    }
    for token in ["FOO", "get", "", "HEAD", "GET "] {
        assert!(!Method::is_known(token));
    }
}

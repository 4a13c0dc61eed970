use server::Path;

#[test]
fn test_from_str_to_path() {
    let path = Path::from("/home?user=admin&theme=dark");

    assert_eq!(path.data, "/home");
    assert_eq!(path.params, Some("user=admin&theme=dark".to_string()));
}

#[test]
fn test_from_str_no_params() {
    let path = Path::from("/about");

    assert_eq!(path.data, "/about");
    assert_eq!(path.params, None);
}

#[test]
fn test_parse_params() {
    let path = Path::from("/home?user=admin&theme=dark");

    let parsed_params = path.parse_params().unwrap();
    assert_eq!(parsed_params.get("user"), Some(&"admin".to_string()));
    assert_eq!(parsed_params.get("theme"), Some(&"dark".to_string()));
}

#[test]
fn test_parse_params_empty() {
    let path = Path::from("/home");

    let parsed_params = path.parse_params().unwrap();
    assert!(parsed_params.is_empty());
}

#[test]
fn test_partial_eq() {
    let path = Path::from("/about");
    let other = "/about".to_string();

    assert!(path == other, "Expected path to be equal to {}", other);
}

#[test]
fn path_text_round_trips() {
    for s in ["/a?b=1", "/a", "/a?", "?", "", "/x?y?z", "/q?a=1&b=2"] {
        assert_eq!(Path::from(s).to_string(), s);
    }
}

#[test]
fn path_splits_at_first_question_mark() {
    let path = Path::from("/x?y?z");
    assert_eq!(path.data, "/x");
    assert_eq!(path.params, Some("y?z".to_string()));
    let empty_query = Path::from("/a?");
    assert_eq!(empty_query.params, Some(String::new()));
    assert!(empty_query.parse_params().unwrap().is_empty());
}

#[test]
fn path_equality_ignores_query() {
    let path = Path::from("/login?email=a");
    assert!(path == "/login".to_string());
    assert!(!(path == "/login?email=a".to_string()));
}

#[test]
fn bad_query_fails_to_parse() {
    let path = Path::from("/home?user");
    assert_eq!(path.parse_params().err(), Some("Invalid URL param"));
}

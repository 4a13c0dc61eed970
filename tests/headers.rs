use server::headers::{EMPTY_KEY, NO_SEPARATOR};
use server::Headers;

#[test]
fn test_user_agent() {
    let mut headers = Headers::new();
    headers.insert("User-Agent".to_string(), "Prueba".to_string());

    assert_eq!(headers.user_agent(), Some(&"Prueba".to_string()));
}

#[test]
fn test_get() {
    let mut headers = Headers::new();
    headers.insert("Content-Type".to_string(), "application/json".to_string());
    assert_eq!(
        headers.get("Content-Type"),
        Some(&"application/json".to_string())
    );
    assert_eq!(headers.get("No_existe"), None);
}

#[test]
fn test_iter() {
    let mut headers = Headers::new();
    headers.insert("Key1".to_string(), "Value1".to_string());
    headers.insert("Key2".to_string(), "Value2".to_string());
    let mut iter = headers.iter();
    assert!(iter.any(|(k, v)| k == "Key1" && v == "Value1"));
    assert!(iter.any(|(k, v)| k == "Key2" && v == "Value2"));
}

#[test]
fn test_insert() {
    let mut headers = Headers::new();
    headers.insert("key".to_string(), "val".to_string());
    assert_eq!(headers.get("key"), Some(&"val".to_string()));
}

#[test]
fn test_parse_header_line() {
    assert_eq!(
        Headers::parse_header_line("Content-Type: application/json"),
        Ok(("Content-Type".to_string(), "application/json".to_string()))
    );
    assert_eq!(
        Headers::parse_header_line("No_existe"),
        Err("Invalid header, no ': ' found")
    );
    assert_eq!(Headers::parse_header_line(": No Key"), Err("Invalid header"));
}

#[test]
fn test_try_from_split() {
    let headers = Headers::try_from("Host: example.com\nUser-Agent: app/5.0\n\n").unwrap();
    assert_eq!(headers.get("Host"), Some(&"example.com".to_string()));
    assert_eq!(headers.get("User-Agent"), Some(&"app/5.0".to_string()));
}

#[test]
fn test_try_from_split_error() {
    assert!(Headers::try_from("Invalid\n").is_err());
}

#[test]
fn test_from_vec() {
    let vec = vec![
        ("Content-Type", "application/json"),
        ("Authorization", "Bearer token"),
    ];
    let headers = Headers::from(&vec);
    assert_eq!(
        headers.get("Content-Type"),
        Some(&"application/json".to_string())
    );
    assert_eq!(
        headers.get("Authorization"),
        Some(&"Bearer token".to_string())
    );
}

#[test]
fn header_line_is_trimmed_on_both_sides() {
    assert_eq!(
        Headers::parse_header_line("  Host \t:   example.com  \r"),
        Ok(("Host".to_string(), "example.com".to_string()))
    );
}

#[test]
fn header_value_keeps_later_colons() {
    assert_eq!(
        Headers::parse_header_line("Host: localhost:8080"),
        Ok(("Host".to_string(), "localhost:8080".to_string()))
    );
}

#[test]
fn header_value_may_be_empty() {
    assert_eq!(
        Headers::parse_header_line("X-Empty:"),
        Ok(("X-Empty".to_string(), String::new()))
    );
}

#[test]
fn header_errors_name_their_cause() {
    assert_eq!(Headers::parse_header_line("   :x"), Err(EMPTY_KEY));
    assert_eq!(Headers::parse_header_line("NoColonHere"), Err(NO_SEPARATOR));
    assert_eq!(Headers::parse_header_line(""), Err(EMPTY_KEY));
}

#[test]
fn header_lookup_is_case_sensitive() {
    let headers = Headers::try_from("host: a\n").unwrap();
    assert_eq!(headers.get("host"), Some(&"a".to_string()));
    assert_eq!(headers.get("Host"), None);
}

#[test]
fn header_block_stops_at_first_blank_line() {
    let headers = Headers::try_from("A: 1\n  \nnot a header\n").unwrap();
    assert_eq!(headers.len(), 1);
    assert_eq!(headers.get("A"), Some(&"1".to_string()));
}

#[test]
fn header_block_reports_first_bad_line() {
    assert_eq!(Headers::try_from("A: 1\n: x\nB\n").err(), Some(EMPTY_KEY));
    assert_eq!(Headers::try_from("A: 1\nB\n: x\n").err(), Some(NO_SEPARATOR));
}

#[test]
fn repeated_header_keeps_place_and_takes_last_value() {
    let headers = Headers::try_from("A: 1\nB: 2\nA: 3\n").unwrap();
    let entries: Vec<(String, String)> = headers.iter().cloned().collect();
    assert_eq!(
        entries,
        vec![
            ("A".to_string(), "3".to_string()),
            ("B".to_string(), "2".to_string())
        ]
    );
}

#[test]
fn empty_header_text_gives_no_headers() {
    let headers = Headers::try_from("").unwrap();
    assert_eq!(headers.len(), 0);
}

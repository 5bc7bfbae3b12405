use http_server::parse_request;
use http_server::route::{route_request, same_text, Route};

#[test]
fn test_parse_request_root_path() {
    let request = vec!["GET / HTTP/1.1".to_string()];
    let (status_line, filename) = parse_request(request);

    assert_eq!(status_line, "HTTP/1.1 200 OK");
    assert_eq!(filename, "hello.html");
}

#[test]
fn test_parse_request_not_found() {
    let request = vec!["GET /other HTTP/1.1".to_string()];
    let (status_line, filename) = parse_request(request);

    assert_eq!(status_line, "HTTP/1.1 404 NOT FOUND");
    assert_eq!(filename, "404.html");
}

#[test]
fn test_parse_request_different_paths() {
    let test_cases = vec![
        "GET /about HTTP/1.1",
        "GET /contact HTTP/1.1",
        "GET /random/path HTTP/1.1",
    ];

    for request_line in test_cases {
        let request = vec![request_line.to_string()];
        let (status_line, filename) = parse_request(request);

        assert_eq!(status_line, "HTTP/1.1 404 NOT FOUND");
        assert_eq!(filename, "404.html");
    }
}

#[test]
fn test_parse_request_case_sensitivity() {
    // Methods are case-sensitive: only the exact "GET" matches.
    let request = vec!["get / HTTP/1.1".to_string()];
    let (status_line, filename) = parse_request(request);

    assert_eq!(status_line, "HTTP/1.1 404 NOT FOUND");
    assert_eq!(filename, "404.html");
}

#[test]
fn test_request_with_multiple_headers() {
    let request = vec![
        "GET / HTTP/1.1".to_string(),
        "Host: localhost".to_string(),
        "User-Agent: Test".to_string(),
        "Accept: text/html".to_string(),
    ];

    let (status_line, filename) = parse_request(request);
    assert_eq!(status_line, "HTTP/1.1 200 OK");
    assert_eq!(filename, "hello.html");
}

#[test]
fn test_parse_request_other_versions_and_methods() {
    let test_cases = vec![
        "GET / HTTP/1.0",
        "GET / HTTP/2",
        "POST / HTTP/1.1",
        "GET / http/1.1",
        "GET  / HTTP/1.1",
        " GET / HTTP/1.1",
        "GET / HTTP/1.1 ",
        "GET / HTTP/1.1\r",
        "GET /?q=1 HTTP/1.1",
        "GET // HTTP/1.1",
        "GET / HTTP/1.",
        "G",
        "",
    ];

    for request_line in test_cases {
        let (status_line, filename) = parse_request(vec![request_line.to_string()]);
        assert_eq!(status_line, "HTTP/1.1 404 NOT FOUND", "{:?}", request_line);
        assert_eq!(filename, "404.html", "{:?}", request_line);
    }
}

#[test]
fn test_parse_request_ignores_what_follows_the_first_line() {
    let found = parse_request(vec![
        "GET / HTTP/1.1".to_string(),
        "GET /other HTTP/1.1".to_string(),
    ]);
    assert_eq!(found, ("HTTP/1.1 200 OK", "hello.html"));

    let not_found = parse_request(vec![
        "GET /other HTTP/1.1".to_string(),
        "GET / HTTP/1.1".to_string(),
    ]);
    assert_eq!(not_found, ("HTTP/1.1 404 NOT FOUND", "404.html"));
}

#[test]
fn test_route_request_and_its_answers() {
    assert_eq!(route_request("GET / HTTP/1.1"), Route::Found);
    assert_eq!(route_request("GET /index.html HTTP/1.1"), Route::NotFound);
    assert_eq!(route_request("GET / HTTP/1.1\u{e9}"), Route::NotFound);

    assert_eq!(Route::Found.status_line(), "HTTP/1.1 200 OK");
    assert_eq!(Route::Found.resource_key(), "hello.html");
    assert_eq!(Route::NotFound.status_line(), "HTTP/1.1 404 NOT FOUND");
    assert_eq!(Route::NotFound.resource_key(), "404.html");
    assert_ne!(Route::Found.status_line(), Route::NotFound.status_line());
    assert_ne!(Route::Found.resource_key(), Route::NotFound.resource_key());
}

#[test]
fn test_same_text() {
    assert!(same_text("", ""));
    assert!(same_text("abc", "abc"));
    assert!(same_text("h\u{e9}llo", "h\u{e9}llo"));
    assert!(!same_text("abc", "abd"));
    assert!(!same_text("abc", "ab"));
    assert!(!same_text("ab", "abc"));
    assert!(!same_text("abc", "Abc"));
    assert!(!same_text("", "a"));
}

use http_server::read_request;
use http_server::request::request_complete;

fn lines(input: &[u8]) -> Vec<String> {
    read_request(input)
}

#[test]
fn test_read_request_with_headers() {
    assert_eq!(
        lines(b"GET / HTTP/1.1\r\nHost: x\r\n\r\n"),
        vec!["GET / HTTP/1.1".to_string(), "Host: x".to_string()]
    );
}

#[test]
fn test_read_request_nothing_received() {
    assert_eq!(lines(b""), Vec::<String>::new());
}

#[test]
fn test_read_request_blank_line_first() {
    assert_eq!(lines(b"\r\nGET / HTTP/1.1\r\n\r\n"), Vec::<String>::new());
    assert_eq!(lines(b"\nGET / HTTP/1.1\n\n"), Vec::<String>::new());
    assert_eq!(lines(b"\n"), Vec::<String>::new());
    assert_eq!(lines(b"\r\n"), Vec::<String>::new());
}

#[test]
fn test_read_request_stops_at_the_blank_line() {
    assert_eq!(
        lines(b"GET / HTTP/1.1\r\n\r\nbody line\r\nmore\r\n"),
        vec!["GET / HTTP/1.1".to_string()]
    );
}

#[test]
fn test_read_request_stream_ends_without_blank_line() {
    assert_eq!(
        lines(b"GET / HTTP/1.1\r\nHost: x\r\n"),
        vec!["GET / HTTP/1.1".to_string(), "Host: x".to_string()]
    );
    assert_eq!(
        lines(b"GET / HTTP/1.1\r\nHost: x"),
        vec!["GET / HTTP/1.1".to_string(), "Host: x".to_string()]
    );
    assert_eq!(lines(b"GET"), vec!["GET".to_string()]);
}

#[test]
fn test_read_request_line_feed_alone_ends_a_line() {
    assert_eq!(
        lines(b"GET / HTTP/1.1\nHost: x\n\n"),
        vec!["GET / HTTP/1.1".to_string(), "Host: x".to_string()]
    );
}

#[test]
fn test_read_request_carriage_returns() {
    // Only one carriage return, directly before the line feed, is taken off.
    assert_eq!(lines(b"a\r\r\nb\r\n\r\n"), vec!["a\r".to_string(), "b".to_string()]);
    // A line the stream ends in keeps its carriage return.
    assert_eq!(lines(b"a\r\nb\r"), vec!["a".to_string(), "b\r".to_string()]);
    // A carriage return alone on a line is a blank line.
    assert_eq!(lines(b"a\r\n\r\nb\r\n"), vec!["a".to_string()]);
    // A carriage return inside a line stays.
    assert_eq!(lines(b"a\rb\r\n\r\n"), vec!["a\rb".to_string()]);
    // A lone carriage return at the end of the stream is a line of its own.
    assert_eq!(lines(b"\r"), vec!["\r".to_string()]);
}

#[test]
fn test_read_request_drops_lines_that_are_not_utf8() {
    assert_eq!(
        lines(b"GET / HTTP/1.1\r\nX: \xff\xfe\r\nHost: x\r\n\r\n"),
        vec!["GET / HTTP/1.1".to_string(), "Host: x".to_string()]
    );
    // A dropped first line makes the next one the first.
    assert_eq!(
        lines(b"\xc3\r\nGET / HTTP/1.1\r\n\r\n"),
        vec!["GET / HTTP/1.1".to_string()]
    );
    // Only undecodable lines: nothing is left.
    assert_eq!(lines(b"\x80\r\n\xc3\x28\r\n\r\n"), Vec::<String>::new());
    assert_eq!(lines(b"\xed\xa0\x80"), Vec::<String>::new());
}

#[test]
fn test_read_request_decodes_utf8() {
    assert_eq!(
        lines("GET /caf\u{e9} HTTP/1.1\r\nX: \u{20ac}\u{1f600}\r\n\r\n".as_bytes()),
        vec!["GET /caf\u{e9} HTTP/1.1".to_string(), "X: \u{20ac}\u{1f600}".to_string()]
    );
}

#[test]
fn test_read_request_lines_are_never_empty() {
    let inputs: Vec<&[u8]> = vec![
        b"a\n\nb\n",
        b"\n\n\n",
        b"a\r\nb\r\nc",
        b"\xff\n\n",
        b"x\r\n\r\ny\r\n\r\n",
    ];
    for input in inputs {
        for line in lines(input) {
            assert!(!line.is_empty());
        }
    }
}

#[test]
fn test_request_complete() {
    assert!(!request_complete(b""));
    assert!(!request_complete(b"GET / HTTP/1.1"));
    assert!(!request_complete(b"GET / HTTP/1.1\r\n"));
    assert!(!request_complete(b"GET / HTTP/1.1\r\nHost: x\r\n"));
    assert!(!request_complete(b"GET / HTTP/1.1\r\n\r"));
    assert!(!request_complete(b"a\r\r\n"));
    assert!(request_complete(b"GET / HTTP/1.1\r\n\r\n"));
    assert!(request_complete(b"GET / HTTP/1.1\n\n"));
    assert!(request_complete(b"GET / HTTP/1.1\r\n\n"));
    assert!(request_complete(b"\n"));
    assert!(request_complete(b"\r\n"));
    assert!(request_complete(b"\xff\r\n\r\n"));
    assert!(request_complete(b"GET / HTTP/1.1\r\n\r\nrest"));
}

#[test]
fn test_complete_request_is_not_changed_by_more_bytes() {
    let received: &[u8] = b"GET / HTTP/1.1\r\nHost: x\r\n\r\n";
    assert!(request_complete(received));
    let tails: Vec<&[u8]> = vec![b"", b"x", b"\r\n", b"GET /other HTTP/1.1\r\n\r\n", b"\xff\xff"];
    for tail in tails {
        let mut all = received.to_vec();
        all.extend_from_slice(tail);
        assert!(request_complete(&all));
        assert_eq!(read_request(&all), read_request(received));
    }
}

use http_server::response::format_response;

#[test]
fn test_format_response_found() {
    assert_eq!(
        format_response("HTTP/1.1 200 OK", b"<html>ok</html>"),
        b"HTTP/1.1 200 OK\r\nContent-Length: 15\r\n\r\n<html>ok</html>".to_vec()
    );
}

#[test]
fn test_format_response_not_found() {
    assert_eq!(
        format_response("HTTP/1.1 404 NOT FOUND", b"<html>no</html>"),
        b"HTTP/1.1 404 NOT FOUND\r\nContent-Length: 15\r\n\r\n<html>no</html>".to_vec()
    );
}

#[test]
fn test_format_response_empty_body() {
    assert_eq!(
        format_response("HTTP/1.1 200 OK", b""),
        b"HTTP/1.1 200 OK\r\nContent-Length: 0\r\n\r\n".to_vec()
    );
}

#[test]
fn test_format_response_body_is_raw_bytes() {
    let body: &[u8] = b"\x00\xff\r\n\r\n\x80";
    let mut expected = b"HTTP/1.1 200 OK\r\nContent-Length: 7\r\n\r\n".to_vec();
    expected.extend_from_slice(body);
    assert_eq!(format_response("HTTP/1.1 200 OK", body), expected);
}

fn find(haystack: &[u8], needle: &[u8]) -> Option<usize> {
    (0..haystack.len()).find(|&i| haystack[i..].starts_with(needle))
}

#[test]
fn test_content_length_is_the_length_of_the_body() {
    for length in [0usize, 1, 9, 10, 11, 99, 100, 101, 999, 1000, 4096, 12345, 100000] {
        let body = vec![b'x'; length];
        let response = format_response("HTTP/1.1 200 OK", &body);

        let expected_head = format!("HTTP/1.1 200 OK\r\nContent-Length: {}\r\n\r\n", length);
        assert_eq!(&response[..expected_head.len()], expected_head.as_bytes());
        assert_eq!(&response[expected_head.len()..], &body[..]);
        assert_eq!(response.len(), expected_head.len() + length);

        // The first blank line is the one that ends the head.
        assert_eq!(find(&response, b"\r\n\r\n"), Some(expected_head.len() - 4));
    }
}

#[test]
fn test_format_response_decimal_has_no_leading_zero() {
    let response = format_response("S", &[0u8; 1005]);
    assert_eq!(&response[..27], b"S\r\nContent-Length: 1005\r\n\r\n");
    let response = format_response("S", &[0u8; 10]);
    assert_eq!(&response[..25], b"S\r\nContent-Length: 10\r\n\r\n");
}

#[test]
fn test_format_response_status_line_is_taken_as_it_is() {
    assert_eq!(
        format_response("", b"a"),
        b"\r\nContent-Length: 1\r\n\r\na".to_vec()
    );
    assert_eq!(
        format_response("HTTP/1.1 200 \u{e9}", b"a"),
        "HTTP/1.1 200 \u{e9}\r\nContent-Length: 1\r\n\r\na".as_bytes().to_vec()
    );
}

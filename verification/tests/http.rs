use batchlapse::http::{
    content_length, empty_response_head, find_header_end, json_response_head, request_line,
    too_large_message, ReadStep, RequestReader, MAX_REQUEST_BYTES,
};

#[test]
fn heads_end_at_the_first_blank_line() {
    assert_eq!(find_header_end(b""), None);
    assert_eq!(find_header_end(b"\r\n\r"), None);
    assert_eq!(find_header_end(b"\r\n\r\n"), Some(0));
    assert_eq!(find_header_end(b"GET / HTTP/1.1\r\n\r\nbody\r\n\r\n"), Some(14));
    assert_eq!(find_header_end(b"a\r\n\n\r\n\r\n"), Some(4));
}

#[test]
fn body_lengths_are_read_from_heads() {
    assert_eq!(content_length(""), 0);
    assert_eq!(content_length("GET / HTTP/1.1\r\nHost: x"), 0);
    assert_eq!(content_length("POST / HTTP/1.1\r\nContent-Length: 12\r\nHost: x"), 12);
    assert_eq!(content_length("POST / HTTP/1.1\r\ncontent-length:7"), 7);
    assert_eq!(content_length("POST / HTTP/1.1\nCONTENT-LENGTH: +7 \n"), 7);
    assert_eq!(content_length("a\r\nContent-Length: x\r\nContent-Length: 5"), 5);
    assert_eq!(content_length("a\r\nContent-Length : 5"), 0);
    assert_eq!(content_length("a\r\nContent-Length: 99999999999999999999"), 0);
}

#[test]
fn request_lines_name_method_and_path() {
    let pair = |m: &str, p: &str| Ok((m.to_string(), p.to_string()));
    assert_eq!(request_line("GET /status HTTP/1.1\r\nHost: x"), pair("GET", "/status"));
    assert_eq!(request_line("GET /a?b=c?d HTTP/1.1"), pair("GET", "/a"));
    assert_eq!(request_line("GET"), pair("GET", "/"));
    assert_eq!(request_line("\r\nGET /x"), pair("", "/"));
    assert_eq!(request_line("  POST   ?q  "), pair("POST", ""));
    assert_eq!(request_line(""), Err("Invalid HTTP request line.".to_string()));
}

#[test]
fn requests_are_read_in_pieces() {
    let mut reader = RequestReader::new();
    assert_eq!(reader.feed(b"POST /export?x=1 HTTP/1.1\r\nContent-Le"), ReadStep::More);
    assert_eq!(reader.feed(b"ngth: 5\r\n\r"), ReadStep::More);
    assert_eq!(reader.feed(b"\nab"), ReadStep::More);
    assert_eq!(reader.feed(b"cde"), ReadStep::Complete);
    let request = reader.finish().unwrap();
    assert_eq!(request.method, "POST");
    assert_eq!(request.path, "/export");
    assert_eq!(request.body, b"abcde");
}

#[test]
fn requests_without_a_body_are_complete_at_once() {
    let mut reader = RequestReader::new();
    assert_eq!(reader.feed(b"GET /health HTTP/1.1\r\n\r\nmore"), ReadStep::Complete);
    let request = reader.finish().unwrap();
    assert_eq!(request.method, "GET");
    assert_eq!(request.path, "/health");
    assert_eq!(request.body, b"more");
}

#[test]
fn broken_requests_are_refused() {
    let mut reader = RequestReader::new();
    assert_eq!(reader.feed(b"GET / HTTP/1.1\r\n"), ReadStep::More);
    assert_eq!(reader.feed(b""), ReadStep::Complete);
    assert_eq!(reader.finish().err(), Some("Invalid HTTP request.".to_string()));
    let mut reader = RequestReader::new();
    assert_eq!(reader.feed(b"\r\n\r\n"), ReadStep::Complete);
    assert_eq!(reader.finish().err(), Some("Invalid HTTP request line.".to_string()));
}

#[test]
fn unfinished_bodies_are_kept_at_the_end_of_the_stream() {
    let mut reader = RequestReader::new();
    assert_eq!(reader.feed(b"POST / HTTP/1.1\r\nContent-Length: 9\r\n\r\nab"), ReadStep::More);
    assert_eq!(reader.feed(b""), ReadStep::Complete);
    assert_eq!(reader.finish().unwrap().body, b"ab");
}

#[test]
fn long_requests_are_refused() {
    let mut reader = RequestReader::new();
    let block = vec![b'a'; MAX_REQUEST_BYTES];
    assert_eq!(reader.feed(&block), ReadStep::More);
    assert_eq!(reader.feed(b"a"), ReadStep::TooLarge);
    let mut reader = RequestReader::new();
    assert_eq!(reader.feed(b"POST / HTTP/1.1\r\nContent-Length: 3000000\r\n\r\n"), ReadStep::More);
    assert_eq!(reader.feed(&block), ReadStep::TooLarge);
    let mut reader = RequestReader::new();
    let mut whole = b"POST / HTTP/1.1\r\nContent-Length: 2097152\r\n\r\n".to_vec();
    whole.extend_from_slice(&block);
    assert_eq!(reader.feed(&whole), ReadStep::Complete);
    assert_eq!(too_large_message(), "Agent request is too large.");
}

#[test]
fn lengths_beyond_counting_are_noticed() {
    let mut reader = RequestReader::new();
    let head = format!("POST / HTTP/1.1\r\nContent-Length: {}\r\n\r\n", usize::MAX);
    assert_eq!(reader.feed(head.as_bytes()), ReadStep::Uncountable);
}

#[test]
fn invalid_bytes_in_a_head_are_replaced() {
    let mut reader = RequestReader::new();
    assert_eq!(reader.feed(b"GET /\xff\xc3\xa9 HTTP/1.1\r\n\r\n"), ReadStep::Complete);
    assert_eq!(reader.finish().unwrap().path, "/\u{fffd}é");
}

#[test]
fn answers_have_heads() {
    assert_eq!(
        json_response_head("200 OK", 17),
        "HTTP/1.1 200 OK\r\nContent-Type: application/json; charset=utf-8\r\nContent-Length: 17\r\nAccess-Control-Allow-Origin: *\r\nAccess-Control-Allow-Headers: content-type\r\nAccess-Control-Allow-Methods: GET, POST, OPTIONS\r\nConnection: close\r\n\r\n"
    );
    assert_eq!(
        empty_response_head("204 No Content"),
        "HTTP/1.1 204 No Content\r\nContent-Length: 0\r\nAccess-Control-Allow-Origin: *\r\nAccess-Control-Allow-Headers: content-type\r\nAccess-Control-Allow-Methods: GET, POST, OPTIONS\r\nConnection: close\r\n\r\n"
    );
}

#[test]
fn announced_lengths_are_read_back() {
    for n in [0usize, 1, 42, 1_000_000] {
        let head = format!("POST /export HTTP/1.1\r\nContent-Length: {n}\r\nHost: localhost");
        assert_eq!(content_length(&head), n);
    }
}

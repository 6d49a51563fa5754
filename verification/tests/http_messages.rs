use visual_git::dynerror::{Error, Location};
use visual_git::http::{answer, failure_response, stream_step, StreamAction, StreamEvent};
use visual_git::http::{
    initial_body, internal_server_error, is_event_stream, json, method_not_allowed,
    next_body_read, normalize_path, not_found, ok, parse_request_head, request_from_head,
    scan_request_head, sse_event, HeadScan, Method, Response, StatusCode, EVENT_STREAM_HEAD,
    KEEP_ALIVE, MAX_BODY_BYTES, MAX_HEADER_BYTES,
};

#[test]
fn methods_parse_and_print() {
    assert!(Method::parse("GET") == Ok(Method::Get));
    assert!(Method::parse("POST") == Ok(Method::Post));
    assert_eq!(Method::parse("get").err().unwrap(), "unrecognized method: get");
    assert_eq!(Method::parse("PUT").err().unwrap(), "unrecognized method: PUT");
    assert_eq!(Method::Get.as_str(), "GET");
    assert_eq!(Method::Post.as_str(), "POST");
}

#[test]
fn status_codes_print_with_reason() {
    assert_eq!(StatusCode::ok().text(), "200 OK");
    assert_eq!(StatusCode::bad_request().text(), "400 Bad Request");
    assert_eq!(StatusCode::not_found().text(), "404 Not Found");
    assert_eq!(StatusCode::internal_server_error().text(), "500 Internal Server Error");
    assert_eq!(StatusCode::method_not_allowed().text(), "405 Method Not Allowed");
}

#[test]
fn builder_sets_headers_and_body() {
    let r = Response::builder(StatusCode::ok())
        .header("Content-Type".to_string(), "text/plain".to_string())
        .header("X-A".to_string(), "1".to_string())
        .header("Content-Type".to_string(), "text/html".to_string())
        .body(b"hi");
    assert_eq!(r.header_value("Content-Type"), Some("text/html".to_string()));
    assert_eq!(r.header_value("X-A"), Some("1".to_string()));
    assert_eq!(r.header_value("content-type"), None);
    assert_eq!(r.body, Some(b"hi".to_vec()));
    assert_eq!(
        r.head_text(),
        "HTTP/1.1 200 OK\r\nContent-Type: text/html\r\nContent-Length: 2\r\nConnection: close\r\n\r\n"
    );
}

#[test]
fn json_responses_carry_their_content_type() {
    let r = json("{\"a\":1}".to_string());
    assert_eq!(r.body, Some(b"{\"a\":1}".to_vec()));
    assert_eq!(r.header_value("Content-Type"), Some("application/json".to_string()));
    assert_eq!(
        r.head_text(),
        "HTTP/1.1 200 OK\r\nContent-Type: application/json\r\nContent-Length: 7\r\nConnection: close\r\n\r\n"
    );
}

#[test]
fn bodiless_responses_default_their_content_type() {
    assert_eq!(
        not_found().head_text(),
        "HTTP/1.1 404 Not Found\r\nContent-Type: application/octet-stream\r\nContent-Length: 0\r\nConnection: close\r\n\r\n"
    );
    assert_eq!(
        method_not_allowed().head_text(),
        "HTTP/1.1 405 Method Not Allowed\r\nContent-Type: application/octet-stream\r\nContent-Length: 0\r\nConnection: close\r\n\r\n"
    );
    assert_eq!(ok().head_text().lines().next(), Some("HTTP/1.1 200 OK"));
    assert_eq!(ok().body, None);
}

#[test]
fn internal_server_error_carries_the_message() {
    let r = internal_server_error("boom é".to_string());
    assert_eq!(r.body, Some("boom é".as_bytes().to_vec()));
    assert_eq!(
        r.head_text(),
        "HTTP/1.1 500 Internal Server Error\r\nContent-Type: application/octet-stream\r\nContent-Length: 7\r\nConnection: close\r\n\r\n"
    );
}

#[test]
fn paths_lose_their_query() {
    assert_eq!(normalize_path("/refresh?x=1"), "/refresh");
    assert_eq!(normalize_path("/a/b"), "/a/b");
    assert_eq!(normalize_path("?q"), "");
    assert_eq!(normalize_path("/é?x?y"), "/é");
}

#[test]
fn request_heads_are_found() {
    match scan_request_head(b"GET / HTTP/1.1\r\n\r\nbody") {
        HeadScan::Complete(i) => assert_eq!(i, 14),
        _ => panic!("head not found"),
    }
    assert!(matches!(scan_request_head(b"GET / HTTP/1.1\r\n"), HeadScan::Incomplete));
    let big = vec![b'a'; MAX_HEADER_BYTES + 1];
    assert!(matches!(scan_request_head(&big), HeadScan::TooLarge));
    let limit = vec![b'a'; MAX_HEADER_BYTES];
    assert!(matches!(scan_request_head(&limit), HeadScan::Incomplete));
}

#[test]
fn request_heads_are_parsed() {
    let h = parse_request_head(b"POST /refresh?x HTTP/1.1\r\nHost: localhost\r\ncontent-LENGTH:  12 \r\nAccept: */*")
        .ok()
        .unwrap();
    assert!(h.method == Method::Post);
    assert_eq!(h.path, "/refresh?x");
    assert_eq!(h.content_length, 12);

    let h = parse_request_head(b"GET /").ok().unwrap();
    assert!(h.method == Method::Get);
    assert_eq!(h.path, "/");
    assert_eq!(h.content_length, 0);
}

#[test]
fn unicode_whitespace_separates_request_line_words() {
    let h = parse_request_head("GET\u{a0}/x\u{3000}HTTP/1.1".as_bytes()).ok().unwrap();
    assert_eq!(h.path, "/x");
}

#[test]
fn last_content_length_wins() {
    let h = parse_request_head(b"POST / HTTP/1.1\r\nContent-Length: 3\r\nContent-Length: +5")
        .ok()
        .unwrap();
    assert_eq!(h.content_length, 5);
}

#[test]
fn malformed_request_heads_are_refused() {
    assert_eq!(parse_request_head(b"").err().unwrap().message(), "request is missing a method");
    assert_eq!(parse_request_head(b"   \r\nGET / x").err().unwrap().message(), "request is missing a method");
    assert_eq!(parse_request_head(b"GET").err().unwrap().message(), "request is missing a path");
    assert_eq!(
        parse_request_head(b"PUT / HTTP/1.1").err().unwrap().message(),
        "invalid request method: PUT: unrecognized method: PUT"
    );
    assert_eq!(
        parse_request_head(b"GET /\xff").err().unwrap().message(),
        "invalid UTF-8 in request headers: invalid utf-8 sequence of 1 bytes from index 5"
    );
}

#[test]
fn head_errors_keep_context_and_cause_apart() {
    let e = parse_request_head(b"PUT / HTTP/1.1").err().unwrap();
    assert_eq!(e.context, "invalid request method: PUT");
    assert_eq!(e.cause, Some("unrecognized method: PUT".to_string()));
    let e = parse_request_head(b"POST / HTTP/1.1\r\nContent-Length: x").err().unwrap();
    assert_eq!(e.context, "couldn't parse content-length");
    assert_eq!(e.cause, Some("invalid digit found in string".to_string()));
    let e = parse_request_head(b"GET").err().unwrap();
    assert_eq!(e.context, "request is missing a path");
    assert_eq!(e.cause, None);
}

#[test]
fn bad_content_lengths_are_refused() {
    let head = |v: &str| {
        let text = format!("POST / HTTP/1.1\r\nContent-Length: {}\r\n", v);
        parse_request_head(text.as_bytes()).map_err(|e| e.message())
    };
    assert_eq!(head("abc").err().unwrap(), "couldn't parse content-length: invalid digit found in string");
    assert_eq!(head("").err().unwrap(), "couldn't parse content-length: cannot parse integer from empty string");
    assert_eq!(head("+").err().unwrap(), "couldn't parse content-length: invalid digit found in string");
    assert_eq!(head("-1").err().unwrap(), "couldn't parse content-length: invalid digit found in string");
    assert_eq!(
        head("99999999999999999999999").err().unwrap(),
        "couldn't parse content-length: number too large to fit in target type"
    );
    assert_eq!(head("2000000").err().unwrap(), "request body too large");
    assert_eq!(head(&MAX_BODY_BYTES.to_string()).ok().unwrap().content_length, MAX_BODY_BYTES);
}

#[test]
fn body_reads_are_sized() {
    assert_eq!(next_body_read(10000, 0), 4096);
    assert_eq!(next_body_read(10, 4), 6);
    assert_eq!(next_body_read(5, 9), 0);
}

#[test]
fn requests_are_assembled() {
    let buf = b"POST /x HTTP/1.1\r\nContent-Length: 5\r\n\r\nhello world";
    let end = match scan_request_head(buf) {
        HeadScan::Complete(i) => i,
        _ => panic!("head not found"),
    };
    assert_eq!(initial_body(buf, end), b"hello world".to_vec());
    let head = parse_request_head(&buf[..end]).ok().unwrap();
    let req = request_from_head(head, initial_body(buf, end));
    assert!(req.method == Method::Post);
    assert_eq!(req.path, "/x");
    assert_eq!(req.body, b"hello".to_vec());
}

#[test]
fn event_stream_messages() {
    assert_eq!(sse_event("{}"), "data: {}\n\n");
    assert!(is_event_stream(Method::Get, "/events"));
    assert!(!is_event_stream(Method::Post, "/events"));
    assert!(!is_event_stream(Method::Get, "/events/"));
    assert!(EVENT_STREAM_HEAD.contains("text/event-stream"));
    assert_eq!(KEEP_ALIVE, ": keep-alive\n\n");
}

#[test]
fn methods_implement_from_str() {
    assert!("POST".parse::<Method>() == Ok(Method::Post));
    assert_eq!("DELETE".parse::<Method>().err().unwrap(), "unrecognized method: DELETE");
}

#[test]
fn failures_are_answered_with_their_text() {
    let r = failure_response("bad thing");
    assert_eq!(r.header_value("Content-Type"), Some("text/plain".to_string()));
    assert_eq!(r.body, Some(b"bad thing".to_vec()));
    let e = Error::new("broken".to_string(), Location { file: "x.rs".to_string(), line: 1, column: 1 });
    let r = answer(Err(e));
    assert_eq!(
        r.head_text(),
        "HTTP/1.1 500 Internal Server Error\r\nContent-Type: text/plain\r\nContent-Length: 6\r\nConnection: close\r\n\r\n"
    );
    assert_eq!(r.body, Some(b"broken".to_vec()));
    let r = answer(Ok(not_found()));
    assert!(r.head_text().starts_with("HTTP/1.1 404"));
}

#[test]
fn event_streams_step() {
    match stream_step(StreamEvent::Update("{\"a\":1}".to_string())) {
        StreamAction::Send(m) => assert_eq!(m, "data: {\"a\":1}\n\n"),
        StreamAction::Stop => panic!("expected a message"),
    }
    match stream_step(StreamEvent::Idle) {
        StreamAction::Send(m) => assert_eq!(m, ": keep-alive\n\n"),
        StreamAction::Stop => panic!("expected a keep-alive"),
    }
    assert!(matches!(stream_step(StreamEvent::Closed), StreamAction::Stop));
}

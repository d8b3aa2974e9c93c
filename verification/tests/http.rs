use peer_ledger::http::{
    announced_length, head_end, message_size, parse_request, parse_response, request_path, requested_block_hash,
    response_text, route, Request, Route,
};

#[test]
fn builds_get_and_post_requests() {
    let get = Request::get("/status", "127.0.0.1:9000", "127.0.0.1:9001");
    assert_eq!(get.method, "GET");
    assert_eq!(get.path, "/status");
    assert_eq!(get.version, "HTTP/1.1");
    assert_eq!(get.headers, vec!["Host: 127.0.0.1:9001", "X-Node-Addr: 127.0.0.1:9000"]);
    assert_eq!(get.body, "");

    let post = Request::post("/blocks", "me", "you", "{\"a\":\"é\"}".to_string());
    assert_eq!(post.method, "POST");
    assert_eq!(post.headers, vec!["Host: you", "X-Node-Addr: me", "Content-Length: 10"]);
    assert_eq!(post.body, "{\"a\":\"é\"}");

    let empty = Request::post("/x", "me", "you", String::new());
    assert_eq!(empty.headers.len(), 2);
    assert_eq!(Request::default().method, "GET");
    assert_eq!(Request::default().path, "/");
}

#[test]
fn request_names_its_sender() {
    let req = Request::get("/", " 10.0.0.1:9 ", "x");
    assert_eq!(req.node_addr(), Some("10.0.0.1:9".to_string()));
    let mut other = Request::new("GET", "/", "a", "b");
    other.headers = vec!["x-NODE-addr:   c:1".to_string(), "X-Node-Addr: d:2".to_string()];
    assert_eq!(other.node_addr(), Some("c:1".to_string()));
    other.headers = vec!["Host: b".to_string(), "X-Node: c".to_string()];
    assert_eq!(other.node_addr(), None);
}

#[test]
fn parses_requests() {
    let req = parse_request(b"POST /peers?x=1 HTTP/1.1\r\nHost: a\r\nX-Node-Addr: b\r\n\r\n{\"address\":\"c\"}");
    assert_eq!(req.method, "POST");
    assert_eq!(req.path, "/peers?x=1");
    assert_eq!(req.version, "HTTP/1.1");
    assert_eq!(req.headers, vec!["Host: a", "X-Node-Addr: b"]);
    assert_eq!(req.body, "{\"address\":\"c\"}");
    assert_eq!(req.node_addr(), Some("b".to_string()));
}

#[test]
fn parses_requests_without_blank_line_as_empty() {
    let req = parse_request(b"GET / HTTP/1.1\r\nHost: a\r\n");
    assert_eq!(req.method, "");
    assert_eq!(req.path, "");
    assert_eq!(req.version, "");
    assert!(req.headers.is_empty());
    assert_eq!(req.body, "");
}

#[test]
fn parses_short_request_lines_and_invalid_utf8() {
    let req = parse_request(b"  GET   \r\n\r\nbody\r\n\r\nmore");
    assert_eq!(req.method, "GET");
    assert_eq!(req.path, "");
    assert_eq!(req.body, "body\r\n\r\nmore");
    let req = parse_request(b"GET /\xff HTTP/1.1\r\n\r\n");
    assert_eq!(req.path, "/\u{fffd}");
}

#[test]
fn parses_responses() {
    let res = parse_response(b"HTTP/1.1 404 Not Found\r\nContent-Type: application/json\r\n\r\n{}");
    assert_eq!(res.status, 404);
    assert_eq!(res.headers, vec!["Content-Type: application/json"]);
    assert_eq!(res.body, "{}");
    assert_eq!(parse_response(b"HTTP/1.1 abc\r\n\r\n").status, 0);
    assert_eq!(parse_response(b"HTTP/1.1 70000\r\n\r\n").status, 0);
    assert_eq!(parse_response(b"HTTP/1.1 +200\r\n\r\n").status, 200);
    assert_eq!(parse_response(b"nothing").status, 0);
}

#[test]
fn formats_replies() {
    assert_eq!(
        response_text(200, "{}"),
        "HTTP/1.1 200 OK\r\nContent-Type: application/json\r\nContent-Length: 2\r\n\r\n{}"
    );
    assert!(response_text(400, "x").starts_with("HTTP/1.1 400 Bad Request\r\n"));
    assert!(response_text(404, "x").starts_with("HTTP/1.1 404 Not Found\r\n"));
    assert!(response_text(500, "x").starts_with("HTTP/1.1 500 Internal Server Error\r\n"));
    assert!(response_text(201, "x").starts_with("HTTP/1.1 201 OK\r\n"));
    assert!(response_text(200, "é").contains("Content-Length: 2\r\n"));
}

#[test]
fn routes_methods_and_paths() {
    assert_eq!(route("GET", "/ping"), Route::Ping);
    assert_eq!(route("GET", "/status?verbose=1"), Route::Status);
    assert_eq!(route("GET", "/peers"), Route::GetPeers);
    assert_eq!(route("POST", "/peers"), Route::PostPeers);
    assert_eq!(route("POST", "/transactions/create"), Route::CreateTransaction);
    assert_eq!(route("POST", "/transactions"), Route::PostTransaction);
    assert_eq!(route("GET", "/transactions"), Route::GetTransactions);
    assert_eq!(route("POST", "/mine"), Route::Mine);
    assert_eq!(route("GET", "/mining/status"), Route::MiningStatus);
    assert_eq!(route("POST", "/blocks"), Route::PostBlock);
    assert_eq!(route("GET", "/blocks/abc"), Route::GetBlock);
    assert_eq!(route("GET", "/blocks/"), Route::GetBlock);
    assert_eq!(route("GET", "/blocks"), Route::NotFound);
    assert_eq!(route("GET", "/chain/status"), Route::ChainStatus);
    assert_eq!(route("POST", "/debug/faults"), Route::DebugFaults);
    assert_eq!(route("OPTIONS", "/anything"), Route::Options);
    assert_eq!(route("DELETE", "/ping"), Route::NotFound);
    assert_eq!(route("GET", "/mine"), Route::NotFound);
    assert_eq!(route("get", "/ping"), Route::NotFound);
}

#[test]
fn block_lookup_target_gives_the_hash() {
    assert_eq!(request_path("/a?b?c"), "/a");
    assert_eq!(request_path("/plain"), "/plain");
    assert_eq!(requested_block_hash("/blocks/00ab?x=1"), "00ab");
    assert_eq!(requested_block_hash("/blocks//blocks/ff"), "ff");
    assert_eq!(requested_block_hash("/blocks/"), "");
}

#[test]
fn request_bytes_hold_line_headers_and_body() {
    let post = Request::post("/blocks", "me", "you", "{\"a\":\"é\"}".to_string());
    let bytes = post.to_http_bytes();
    assert_eq!(
        String::from_utf8(bytes.clone()).unwrap(),
        "POST /blocks HTTP/1.1\r\nHost: you\r\nX-Node-Addr: me\r\nContent-Length: 10\r\n\r\n{\"a\":\"é\"}"
    );
    let back = parse_request(&bytes);
    assert_eq!(back.method, "POST");
    assert_eq!(back.headers, post.headers);
    assert_eq!(back.body, post.body);
    let get = Request::get("/ping", "a", "b");
    assert_eq!(get.to_http_bytes(), b"GET /ping HTTP/1.1\r\nHost: b\r\nX-Node-Addr: a\r\n\r\n".to_vec());
}

#[test]
fn message_framing_finds_head_and_length() {
    assert_eq!(head_end(b"GET / HTTP/1.1\r\nHost: a\r\n\r\nbody"), Some(27));
    assert_eq!(head_end(b"GET / HTTP/1.1\r\nHost: a\r\n"), None);
    assert_eq!(head_end(b"\r\n\r\n"), Some(4));
    assert_eq!(head_end(b""), None);

    assert_eq!(announced_length(b"POST / HTTP/1.1\r\ncontent-LENGTH:  12 \r\n\r\n"), 12);
    assert_eq!(announced_length(b"POST / HTTP/1.1\r\nContent-Length: +7\r\nContent-Length: 9\r\n\r\n"), 7);
    assert_eq!(announced_length(b"POST / HTTP/1.1\r\nContent-Length: x\r\nContent-Length: 9\r\n\r\n"), 0);
    assert_eq!(announced_length(b"POST / HTTP/1.1\r\nHost: a\r\n\r\n"), 0);
    assert_eq!(announced_length(b" Content-Length : 3\r\n"), 3);

    assert_eq!(message_size(b"POST / HTTP/1.1\r\nContent-Length: 5\r\n\r\nab"), Some(43));
    assert_eq!(message_size(b"POST / HTTP/1.1\r\nContent-Length: 5\r\n"), None);
    assert_eq!(
        message_size(b"POST / HTTP/1.1\r\nContent-Length: 18446744073709551615\r\n\r\n"),
        Some(usize::MAX)
    );
}

#[test]
fn replies_read_back_as_sent() {
    for (status, body) in [(200u16, "{}"), (404, "{\"error\":\"not found\"}"), (400, "é"), (500, ""), (201, "x")] {
        let text = response_text(status, body);
        let back = parse_response(text.as_bytes());
        assert_eq!(back.status, status);
        assert_eq!(back.body, body);
        assert_eq!(
            back.headers,
            vec!["Content-Type: application/json".to_string(), format!("Content-Length: {}", body.len())]
        );
    }
}

#[test]
fn requests_read_back_as_sent() {
    let mut req = Request::post("/transactions", "10.0.0.1:9000", "10.0.0.2:9001", "{\"a\":1}\r\n\r\nrest".to_string());
    req.headers.push("X-Extra: yes".to_string());
    let back = parse_request(&req.to_http_bytes());
    assert_eq!((back.method.as_str(), back.path.as_str(), back.version.as_str()), ("POST", "/transactions", "HTTP/1.1"));
    assert_eq!(back.headers, req.headers);
    assert_eq!(back.body, req.body);
}

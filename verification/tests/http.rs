use rios::response;

#[test]
fn bounded_fragmented_requests_and_strict_framing() {
    assert!(response(b"GET / HTTP/1.1\r\nHost: lab\r\n", "hello").is_none());
    let text =
        String::from_utf8(response(b"HEAD / HTTP/1.1\r\nHost: lab\r\n\r\n", "hello").unwrap())
            .unwrap();
    assert!(text.contains("Content-Length: 5"));
    assert!(!text.ends_with("hello"));
    for request in [
        "GET / HTTP/1.1\r\n\r\n",
        "GET / HTTP/1.1\r\nHost: a\r\nHost: b\r\n\r\n",
        "GET / HTTP/1.0\r\nTransfer-Encoding: chunked\r\n\r\n",
        "GET / HTTP/1.0\r\nContent-Length: 2\r\n\r\n",
    ] {
        assert!(
            response(request.as_bytes(), "hello")
                .unwrap()
                .starts_with(b"HTTP/1.1 400")
        );
    }
    assert!(
        response(&vec![b'A'; 8193], "")
            .unwrap()
            .starts_with(b"HTTP/1.1 431")
    );
    for len in 0..256 {
        let _ = response(&vec![0xff; len], "");
    }
}

fn text(request: &str, body: &str) -> String {
    String::from_utf8(response(request.as_bytes(), body).unwrap()).unwrap()
}

#[test]
fn complete_get_returns_the_exact_response() {
    assert_eq!(
        text("GET / HTTP/1.1\r\nHost: lab\r\n\r\n", "hello"),
        "HTTP/1.1 200 OK\r\nContent-Length: 5\r\nContent-Type: text/plain; charset=utf-8\r\nConnection: close\r\n\r\nhello"
    );
    assert_eq!(
        text("HEAD / HTTP/1.0\r\n\r\n", "hello"),
        "HTTP/1.1 200 OK\r\nContent-Length: 5\r\nContent-Type: text/plain; charset=utf-8\r\nConnection: close\r\n\r\n"
    );
}

#[test]
fn methods_paths_and_field_rules() {
    assert_eq!(
        text("POST / HTTP/1.0\r\n\r\n", "x"),
        "HTTP/1.1 405 Method Not Allowed\r\nContent-Length: 0\r\nContent-Type: text/plain; charset=utf-8\r\nConnection: close\r\nAllow: GET, HEAD\r\n\r\n"
    );
    assert!(text("GET /index HTTP/1.0\r\n\r\n", "x").starts_with("HTTP/1.1 404 Not Found\r\nContent-Length: 0\r\n"));
    assert!(text("GET / HTTP/1.0\r\nContent-Length: \u{a0}0 \r\n\r\n", "x").starts_with("HTTP/1.1 200"));
    assert!(text("GET / HTTP/1.0\r\ncontent-length: 0\r\nContent-Length: 0\r\n\r\n", "x").starts_with("HTTP/1.1 400"));
    assert!(text("GET / HTTP/1.1\r\nHOST: \u{3000}\r\n\r\n", "x").starts_with("HTTP/1.1 400"));
    assert!(text("GET / HTTP/1.1\r\nBad Name: x\r\n\r\n", "x").starts_with("HTTP/1.1 400"));
    assert!(text("GET / HTTP/1.1\r\nHost: a\x01\r\n\r\n", "x").starts_with("HTTP/1.1 400"));
    assert!(text("GET / HTTP/1.1\r\nHost: a\tb\r\n\r\n", "x").starts_with("HTTP/1.1 200"));
    assert!(text("GET / HTTP/2.0\r\n\r\n", "x").starts_with("HTTP/1.1 400"));
    assert!(text("GET  / HTTP/1.0\r\n\r\n", "x").starts_with("HTTP/1.1 400"));
    assert!(text("GET / HTTP/1.0\r\nNoColon\r\n\r\n", "x").starts_with("HTTP/1.1 400"));
    assert!(text("GET / HTTP/1.0\r\n: empty\r\n\r\n", "x").starts_with("HTTP/1.1 400"));
    let invalid = response(b"GET / HTTP/1.0\r\nX: \xff\r\n\r\n", "x").unwrap();
    assert!(invalid.starts_with(b"HTTP/1.1 400"));
}

#[test]
fn oversized_heads_are_refused_only_past_the_limit() {
    let mut big = b"GET / HTTP/1.0\r\n".to_vec();
    while big.len() < 8188 {
        big.push(b'X');
    }
    big.truncate(8188 - 2);
    big.extend_from_slice(b"\r\n\r\n");
    assert!(big.len() <= 8192);
    let mut with_tail = big.clone();
    with_tail.extend_from_slice(&[b'Z'; 100]);
    assert!(response(&with_tail, "x").unwrap().starts_with(b"HTTP/1.1 400"));
    let mut late = vec![b'Y'; 8190];
    late.extend_from_slice(b"\r\n\r\n");
    assert!(response(&late, "x").unwrap().starts_with(b"HTTP/1.1 431"));
    assert!(response(&vec![b'A'; 8192], "x").is_none());
}

use ws_core::handshake::{
    do_handshake, generate_response, read_http_headers, validate_headers, HandshakeError, Headers,
};

fn lines(request: &[&str]) -> Vec<Vec<u8>> {
    request.iter().map(|l| l.as_bytes().to_vec()).collect()
}

fn headers_from(pairs: &[(&str, &str)]) -> Headers {
    let mut h = Headers::new();
    for (k, v) in pairs {
        h.insert(k.as_bytes().to_vec(), v.as_bytes().to_vec());
    }
    h
}

#[test]
fn test_read_http_headers() {
    let request = lines(&[
        "GET / HTTP/1.1\r\n",
        "Host: localhost:8080\r\n",
        "Upgrade: websocket\r\n",
        "Connection: Upgrade\r\n",
        "Sec-WebSocket-Key: dGhlIHNhbXBsZSBub25jZQ==\r\n",
        "\r\n",
    ]);
    let headers = read_http_headers(&request).expect("Failed to read headers");
    assert_eq!(headers.len(), 4);
    let get = |name: &str| {
        headers
            .get(&name.as_bytes().to_vec())
            .map(|v| String::from_utf8(v.clone()).unwrap())
    };
    assert_eq!(get("Upgrade").unwrap(), "websocket");
    assert_eq!(get("Connection").unwrap(), "Upgrade");
    assert_eq!(get("Sec-WebSocket-Key").unwrap(), "dGhlIHNhbXBsZSBub25jZQ==");
    assert_eq!(get("Host").unwrap(), "localhost:8080");
}

#[test]
fn test_invalid_method() {
    let request = lines(&[
        "POST / HTTP/1.1\r\n",
        "Host: localhost:8080\r\n",
        "Upgrade: websocket\r\n",
        "Connection: Upgrade\r\n",
        "Sec-WebSocket-Key: dGhlIHNhbXBsZSBub25jZQ==\r\n",
        "\r\n",
    ]);
    let headers = read_http_headers(&request);
    assert!(
        matches!(headers, Err(HandshakeError::InvalidHeader(s)) if s == b"Must be GET request")
    );
}

#[test]
fn test_invalid_header_format() {
    let request = lines(&[
        "GET / HTTP/1.1\r\n",
        "Host\r\n",
        "Upgrade: websocket\r\n",
        "Connection: Upgrade\r\n",
        "Sec-WebSocket-Key: dGhlIHNhbXBsZSBub25jZQ==\r\n",
        "\r\n",
    ]);
    let headers = read_http_headers(&request);
    assert!(
        matches!(headers, Err(HandshakeError::InvalidHeader(s)) if s == b"Invalid header format")
    );
}

#[test]
fn test_validate_headers() {
    let headers = headers_from(&[
        ("Upgrade", "websocket"),
        ("Connection", "Upgrade"),
        ("Sec-WebSocket-Key", "dGhlIHNhbXBsZSBub25jZQ=="),
    ]);
    let result = validate_headers(&headers);
    assert!(result.is_ok());
}

#[test]
fn test_validate_headers_missing_key() {
    let headers = headers_from(&[("Upgrade", "websocket"), ("Connection", "Upgrade")]);
    let result = validate_headers(&headers);
    assert!(
        matches!(result, Err(HandshakeError::MissingHeader(s)) if s == b"Sec-WebSocket-Key")
    );
}

#[test]
fn test_validate_headers_invalid_upgrade() {
    let headers = headers_from(&[
        ("Upgrade", "http"),
        ("Connection", "Upgrade"),
        ("Sec-WebSocket-Key", "dGhlIHNhbXBsZSBub25jZQ=="),
    ]);
    let result = validate_headers(&headers);
    assert!(
        matches!(result, Err(HandshakeError::InvalidHeader(s)) if s == b"Upgrade header must be websocket")
    );
}

#[test]
fn test_validate_headers_invalid_connection() {
    let headers = headers_from(&[
        ("Upgrade", "websocket"),
        ("Connection", "keep-alive"),
        ("Sec-WebSocket-Key", "dGhlIHNhbXBsZSBub25jZQ=="),
    ]);
    let result = validate_headers(&headers);
    assert!(
        matches!(result, Err(HandshakeError::InvalidHeader(s)) if s == b"Connection header must be upgrade")
    );
}

#[test]
fn test_generate_response() {
    let key = b"dGhlIHNhbXBsZSBub25jZQ==".to_vec();
    let response = String::from_utf8(generate_response(&key)).unwrap();
    assert!(response.starts_with("HTTP/1.1 101 Switching Protocols"));
    assert!(response.contains("Upgrade: websocket"));
    assert!(response.contains("Connection: Upgrade"));
    assert!(response.contains("Sec-WebSocket-Accept:"));
}

#[test]
fn test_accept_key_derivation() {
    // the RFC 6455 worked example
    let key = b"dGhlIHNhbXBsZSBub25jZQ==".to_vec();
    let response = String::from_utf8(generate_response(&key)).unwrap();
    assert!(response.contains("Sec-WebSocket-Accept: s3pPLMBiTxaQ9kYGzzhZRbK+xOo=\r\n\r\n"));
}

#[test]
fn test_do_handshake() {
    let request = lines(&[
        "GET / HTTP/1.1\r\n",
        "Host: localhost:8080\r\n",
        "Upgrade: websocket\r\n",
        "Connection: Upgrade\r\n",
        "Sec-WebSocket-Key: dGhlIHNhbXBsZSBub25jZQ==\r\n",
        "\r\n",
    ]);
    let result = do_handshake(&request);
    assert!(result.is_ok());
    let response = String::from_utf8(result.unwrap()).unwrap();
    assert!(response.starts_with("HTTP/1.1 101 Switching Protocols\r\n"));
    assert!(response.ends_with("\r\n\r\n"));
    assert!(response.contains("Sec-WebSocket-Accept: s3pPLMBiTxaQ9kYGzzhZRbK+xOo="));
}

#[test]
fn test_do_handshake_missing_key() {
    let request = lines(&[
        "GET / HTTP/1.1\r\n",
        "Host: localhost:8080\r\n",
        "Upgrade: websocket\r\n",
        "Connection: Upgrade\r\n",
        "\r\n",
    ]);
    let result = do_handshake(&request);
    assert!(
        matches!(result, Err(HandshakeError::MissingHeader(s)) if s == b"Sec-WebSocket-Key")
    );
}

#[test]
fn test_header_values_case_folded() {
    let headers = headers_from(&[
        ("Upgrade", "WebSocket"),
        ("Connection", "UPGRADE"),
        ("Sec-WebSocket-Key", "dGhlIHNhbXBsZSBub25jZQ=="),
    ]);
    assert!(validate_headers(&headers).is_ok());
}

#[test]
fn test_repeated_header_shadows_earlier() {
    let mut h = headers_from(&[("Upgrade", "nothing")]);
    h.insert(b"Upgrade".to_vec(), b"websocket".to_vec());
    let v = h.get(&b"Upgrade".to_vec()).unwrap();
    assert_eq!(v.as_slice(), b"websocket");
}

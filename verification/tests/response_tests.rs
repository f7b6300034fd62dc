use tokio_benchmark::response::response_bytes;

fn expected() -> &'static [u8] {
    b"HTTP/1.1 200 OK\r\nContent-Type: text/plain; charset=utf-8\r\nContent-Length: 21\r\nConnection: keep-alive\r\n\r\nhello from tokio tcp\n"
}

#[test]
fn response_is_the_fixed_payload() {
    let r = response_bytes();
    assert_eq!(r.as_slice(), expected());
}

#[test]
fn response_is_the_same_on_every_call() {
    assert_eq!(response_bytes(), response_bytes());
}

#[test]
fn declared_content_length_matches_body() {
    let r = response_bytes();
    let head_end = r
        .windows(4)
        .position(|w| w == b"\r\n\r\n")
        .expect("response head must end in a blank line");
    let body = &r[head_end + 4..];
    assert_eq!(body, b"hello from tokio tcp\n");
    assert_eq!(body.len(), 21);
    let head = std::str::from_utf8(&r[..head_end + 4]).unwrap();
    assert!(head.contains("Content-Length: 21\r\n"));
}

use tokio_benchmark::buffer::RequestBuffer;

#[test]
fn fresh_buffer_is_empty() {
    let buf = RequestBuffer::new();
    assert_eq!(buf.len(), 0);
}

#[test]
fn find_first_delimiter() {
    let mut buf = RequestBuffer::new();
    buf.push_bytes(b"AB\r\n\r\nCD");
    assert_eq!(buf.find_request(), Some(2));
}

#[test]
fn no_delimiter_found_in_plain_bytes() {
    let mut buf = RequestBuffer::new();
    buf.push_bytes(b"GET / HTTP/1.1");
    assert_eq!(buf.find_request(), None);
    assert_eq!(buf.drain_requests(), 0);
    assert_eq!(buf.len(), 14);
}

#[test]
fn consume_keeps_trailing_bytes_in_order() {
    let mut buf = RequestBuffer::new();
    buf.push_bytes(b"AB\r\n\r\nCD");
    buf.consume_request(2);
    assert_eq!(buf.len(), 2);
    buf.push_bytes(b"\r\n\r\n");
    assert_eq!(buf.find_request(), Some(2));
}

#[test]
fn split_delimiter_detected_after_second_read() {
    let mut buf = RequestBuffer::new();
    buf.push_bytes(b"\r\n\r");
    assert_eq!(buf.drain_requests(), 0);
    buf.push_bytes(b"\n");
    assert_eq!(buf.drain_requests(), 1);
    assert_eq!(buf.len(), 0);
}

#[test]
fn two_pipelined_requests_in_one_read() {
    let mut buf = RequestBuffer::new();
    buf.push_bytes(b"X\r\n\r\nY\r\n\r\n");
    assert_eq!(buf.drain_requests(), 2);
    assert_eq!(buf.len(), 0);
}

#[test]
fn close_without_delimiter_means_no_response() {
    let mut buf = RequestBuffer::new();
    buf.push_bytes(b"half a request without its ending");
    assert_eq!(buf.find_request(), None);
    assert_eq!(buf.drain_requests(), 0);
}

#[test]
fn chunking_does_not_change_the_total() {
    let stream = b"first\r\n\r\nsecond\r\n\r\nthird\r\n\r\ntail";
    let mut whole = RequestBuffer::new();
    whole.push_bytes(stream);
    let mut total_whole = whole.drain_requests();
    total_whole += 0;

    let mut bytewise = RequestBuffer::new();
    let mut total_bytewise = 0;
    for b in stream.iter() {
        bytewise.push_bytes(&[*b]);
        total_bytewise += bytewise.drain_requests();
    }

    assert_eq!(total_whole, 3);
    assert_eq!(total_bytewise, 3);
    assert_eq!(whole.len(), bytewise.len());
}

#[test]
fn overlapping_delimiters_consume_left_to_right() {
    let mut buf = RequestBuffer::new();
    buf.push_bytes(b"\r\n\r\n\r\n");
    assert_eq!(buf.drain_requests(), 1);
    assert_eq!(buf.len(), 2);

    let mut six = RequestBuffer::new();
    six.push_bytes(b"\r\n\r\n\r\n\r\n\r\n\r\n");
    assert_eq!(six.drain_requests(), 3);
    assert_eq!(six.len(), 0);
}

#[test]
fn bytes_before_delimiter_do_not_matter() {
    let mut a = RequestBuffer::new();
    a.push_bytes(b"GET /a\r\n\r\n");
    let mut b = RequestBuffer::new();
    b.push_bytes(b"~~~~~~\r\n\r\n");
    assert_eq!(a.drain_requests(), b.drain_requests());
}

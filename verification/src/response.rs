//! The one fixed response the server writes back, byte for byte, for every
//! request boundary it detects. Its head declares `Content-Length: 21`, and
//! the body really is 21 bytes long; the proof below pins that down rather
//! than leaving the constant to trust.

use vstd::prelude::*;
use vstd::string::StrSliceExecFns;
use vstd::string::StringSliceAdditionalSpecFns;

verus! {

/// The status line and headers of the fixed response, ending in the blank
/// line that separates head from body.
pub closed spec fn response_head_spec() -> Seq<u8> {
    ("HTTP/1.1 200 OK\r\nContent-Type: text/plain; charset=utf-8\r\nContent-Length: 21\r\nConnection: keep-alive\r\n\r\n").spec_bytes()
}

/// The body of the fixed response.
pub closed spec fn response_body_spec() -> Seq<u8> {
    ("hello from tokio tcp\n").spec_bytes()
}

/// The complete fixed response: head followed by body.
pub open spec fn response_spec() -> Seq<u8> {
    response_head_spec() + response_body_spec()
}

/// The declared `Content-Length: 21` matches the body: the bytes after the
/// head really number exactly 21.
pub proof fn lemma_response_content_length()
    ensures
        response_body_spec().len() == 21,
{
    let body = "hello from tokio tcp\n";
    reveal_strlit("hello from tokio tcp\n");
    assert(vstd::string::is_ascii(body));
    vstd::string::is_ascii_spec_bytes(body);
    assert(body@.len() == 21);
}

/// Build the fixed response payload. Every call returns the same bytes; no
/// input exists that could influence them.
pub fn response_bytes() -> (r: Vec<u8>)
    ensures
        r@ == response_spec(),
{
    let head = "HTTP/1.1 200 OK\r\nContent-Type: text/plain; charset=utf-8\r\nContent-Length: 21\r\nConnection: keep-alive\r\n\r\n";
    let body = "hello from tokio tcp\n";
    let mut r = head.as_bytes_vec();
    let mut tail = body.as_bytes_vec();
    r.append(&mut tail);
    r
}

} // verus!

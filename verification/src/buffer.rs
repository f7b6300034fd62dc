//! The per-connection accumulation buffer: bytes received from the peer but
//! not yet consumed as part of a completed request. The surrounding socket
//! loop appends each read with `push_bytes`, then alternates `find_request`
//! with writing the response and `consume_request`, exactly one response per
//! delimiter found.

use crate::scan::{
    count_requests, has_delim, is_delim_at, lemma_first_match_step, lemma_no_delim, remainder,
};
use vstd::prelude::*;

verus! {

/// Accumulated, not yet consumed bytes of one connection. Each connection
/// owns one value of this type; no state is shared between connections.
pub struct RequestBuffer {
    buf: Vec<u8>,
}

impl View for RequestBuffer {
    type V = Seq<u8>;

    closed spec fn view(&self) -> Seq<u8> {
        self.buf@
    }
}

impl RequestBuffer {
    /// A fresh connection starts with an empty buffer.
    pub fn new() -> (r: Self)
        ensures
            r@ == Seq::<u8>::empty(),
    {
        RequestBuffer { buf: Vec::new() }
    }

    /// How many bytes are currently accumulated.
    pub fn len(&self) -> (n: usize)
        ensures
            n == self@.len(),
    {
        self.buf.len()
    }

    /// Append the bytes of one read, in order, after the bytes already held.
    pub fn push_bytes(&mut self, chunk: &[u8])
        ensures
            final(self)@ == old(self)@ + chunk@,
    {
        self.buf.extend_from_slice(chunk);
        proof {
            assert forall|i: int| 0 <= i < self.buf@.len() implies self.buf@[i] == (old(
                self,
            )@ + chunk@)[i] by {
            }
            assert(self.buf@ =~= old(self)@ + chunk@);
        }
    }

    /// Scan the whole buffer, from its start, for the first delimiter.
    /// Returns its index if one occurs, and `None` when no delimiter is
    /// present anywhere in the buffer.
    pub fn find_request(&self) -> (r: Option<usize>)
        ensures
            match r {
                Some(i) => is_delim_at(self@, i as int) && (forall|j: int|
                    0 <= j < i ==> !is_delim_at(self@, j)),
                None => !has_delim(self@),
            },
    {
        let n = self.buf.len();
        if n < 4 {
            proof {
                if has_delim(self@) {
                    let w: int = choose|w: int| is_delim_at(self@, w);
                }
            }
            return None;
        }
        let mut i: usize = 0;
        while i <= n - 4
            invariant
                self@.len() == n,
                4 <= n,
                i <= n - 3,
                forall|j: int| 0 <= j < i ==> !is_delim_at(self@, j),
            decreases n - i,
        {
            if self.buf[i] == 13 && self.buf[i + 1] == 10 && self.buf[i + 2] == 13 && self.buf[i
                + 3] == 10 {
                return Some(i);
            }
            i += 1;
        }
        proof {
            if has_delim(self@) {
                let w: int = choose|w: int| is_delim_at(self@, w);
                assert(!is_delim_at(self@, w));
            }
        }
        None
    }

    /// Remove one answered request: the bytes up to and including the
    /// delimiter that ends at `end + 4` are dropped, and any trailing bytes
    /// stay, in order, for the next scan.
    pub fn consume_request(&mut self, end: usize)
        requires
            is_delim_at(old(self)@, end as int),
        ensures
            final(self)@ == old(self)@.skip(end as int + 4),
    {
        let held = self.buf.len();
        assert(end + 4 <= held);
        let tail = self.buf.split_off(end + 4);
        self.buf = tail;
        proof {
            assert(self.buf@ =~= old(self)@.skip(end as int + 4));
        }
    }

    /// Consume every complete request already in the buffer and report how
    /// many there were: exactly the number of requests a left-to-right scan
    /// of the held bytes finds, leaving only the delimiter-free tail.
    pub fn drain_requests(&mut self) -> (n: usize)
        ensures
            n == count_requests(old(self)@),
            final(self)@ == remainder(old(self)@),
    {
        let mut n: usize = 0;
        let total = self.buf.len();
        loop
            invariant
                old(self)@.len() == total,
                count_requests(old(self)@) == n + count_requests(self@),
                remainder(old(self)@) == remainder(self@),
                4 * n + self@.len() <= total,
            decreases self@.len(),
        {
            match self.find_request() {
                Some(end) => {
                    proof {
                        lemma_first_match_step(self@, end as int);
                    }
                    self.consume_request(end);
                    n = n + 1;
                }
                None => {
                    proof {
                        lemma_no_delim(self@);
                    }
                    return n;
                }
            }
        }
    }
}

} // verus!

//! The delimiter convention: a logical request ends at the first occurrence of
//! the four bytes `\r\n\r\n` in the accumulated input. These spec functions
//! describe, over mathematical byte sequences, where delimiters sit, how many
//! requests a stream contains when it is scanned left to right consuming each
//! match, and which bytes remain unconsumed afterwards.

use vstd::prelude::*;

verus! {

/// The request delimiter: the four bytes `\r\n\r\n`.
pub open spec fn delim() -> Seq<u8> {
    seq![13u8, 10u8, 13u8, 10u8]
}

/// The four delimiter bytes `\r\n\r\n` occur in `s` starting at index `i`.
pub open spec fn is_delim_at(s: Seq<u8>, i: int) -> bool {
    &&& 0 <= i
    &&& i + 4 <= s.len()
    &&& s[i] == 13u8
    &&& s[i + 1] == 10u8
    &&& s[i + 2] == 13u8
    &&& s[i + 3] == 10u8
}

/// Some delimiter occurs somewhere in `s`.
pub open spec fn has_delim(s: Seq<u8>) -> bool {
    exists|i: int| is_delim_at(s, i)
}

/// How many requests `s` contains: scan left to right, and on each delimiter
/// match consume it whole before searching on. Bytes in front of a match are
/// consumed with it and never count towards a later match.
pub open spec fn count_requests(s: Seq<u8>) -> nat
    decreases s.len(),
{
    if s.len() < 4 {
        0
    } else if is_delim_at(s, 0) {
        1 + count_requests(s.skip(4))
    } else {
        count_requests(s.skip(1))
    }
}

/// The bytes of `s` left over once every request found by the left-to-right
/// scan has been consumed: the suffix after the last consumed delimiter,
/// itself free of delimiters.
pub open spec fn remainder(s: Seq<u8>) -> Seq<u8>
    decreases s.len(),
{
    if s.len() < 4 {
        s
    } else if is_delim_at(s, 0) {
        remainder(s.skip(4))
    } else if has_delim(s) {
        remainder(s.skip(1))
    } else {
        s
    }
}

/// Indices of delimiters shift by `k` when the first `k` bytes are dropped.
pub proof fn lemma_delim_shift(s: Seq<u8>, k: int)
    requires
        0 <= k <= s.len(),
    ensures
        forall|i: int|
            #![trigger is_delim_at(s.skip(k), i)]
            #![trigger is_delim_at(s, i + k)]
            is_delim_at(s.skip(k), i) <==> (0 <= i && is_delim_at(s, i + k)),
{
    assert forall|i: int|
        #![trigger is_delim_at(s.skip(k), i)]
        #![trigger is_delim_at(s, i + k)]
        is_delim_at(s.skip(k), i) <==> (0 <= i && is_delim_at(s, i + k)) by {
        if 0 <= i && i + 4 <= s.len() - k {
            assert(s.skip(k)[i] == s[i + k]);
            assert(s.skip(k)[i + 1] == s[i + k + 1]);
            assert(s.skip(k)[i + 2] == s[i + k + 2]);
            assert(s.skip(k)[i + 3] == s[i + k + 3]);
        }
    }
}

/// A stream in which the delimiter never occurs contains no request: scanning
/// it yields zero matches and leaves every byte in place.
pub proof fn lemma_no_delim(s: Seq<u8>)
    requires
        !has_delim(s),
    ensures
        count_requests(s) == 0,
        remainder(s) == s,
    decreases s.len(),
{
    if s.len() >= 4 {
        assert(!is_delim_at(s, 0));
        lemma_delim_shift(s, 1);
        assert(!has_delim(s.skip(1))) by {
            if has_delim(s.skip(1)) {
                let i: int = choose|i: int| is_delim_at(s.skip(1), i);
                assert(is_delim_at(s, i + 1));
            }
        }
        lemma_no_delim(s.skip(1));
    }
}

/// The bytes left over by a scan never contain a delimiter themselves.
pub proof fn lemma_remainder_no_delim(s: Seq<u8>)
    ensures
        !has_delim(remainder(s)),
    decreases s.len(),
{
    if s.len() < 4 {
        assert(!has_delim(s)) by {
            if has_delim(s) {
                let i: int = choose|i: int| is_delim_at(s, i);
            }
        }
    } else if is_delim_at(s, 0) {
        lemma_remainder_no_delim(s.skip(4));
    } else if has_delim(s) {
        lemma_remainder_no_delim(s.skip(1));
    }
}

/// Consuming the first delimiter match, at index `i`, accounts for exactly one
/// request; the scan then continues in the suffix after the match.
pub proof fn lemma_first_match_step(s: Seq<u8>, i: int)
    requires
        is_delim_at(s, i),
        forall|j: int| 0 <= j < i ==> !is_delim_at(s, j),
    ensures
        count_requests(s) == 1 + count_requests(s.skip(i + 4)),
        remainder(s) == remainder(s.skip(i + 4)),
    decreases i,
{
    if i == 0 {
        assert(has_delim(s));
    } else {
        assert(!is_delim_at(s, 0));
        assert(has_delim(s));
        lemma_delim_shift(s, 1);
        assert(is_delim_at(s.skip(1), i - 1));
        assert forall|j: int| 0 <= j < i - 1 implies !is_delim_at(s.skip(1), j) by {
            assert(is_delim_at(s.skip(1), j) <==> is_delim_at(s, j + 1));
        }
        lemma_first_match_step(s.skip(1), i - 1);
        assert(s.skip(1).skip(i - 1 + 4) =~= s.skip(i + 4));
    }
}

/// Scanning `s + t` finds the requests of `s` first, and then the requests
/// that the leftover of `s` forms together with `t` — even where a delimiter
/// straddles the boundary between the two. This is why feeding a stream in
/// arbitrary chunks detects every request of the whole stream.
pub proof fn lemma_append_scan(s: Seq<u8>, t: Seq<u8>)
    ensures
        count_requests(s + t) == count_requests(s) + count_requests(remainder(s) + t),
        remainder(s + t) == remainder(remainder(s) + t),
    decreases s.len(),
{
    if s.len() < 4 {
        assert(remainder(s) == s);
        assert(count_requests(s) == 0);
    } else if is_delim_at(s, 0) {
        assert(is_delim_at(s + t, 0)) by {
            assert((s + t)[0] == s[0]);
            assert((s + t)[1] == s[1]);
            assert((s + t)[2] == s[2]);
            assert((s + t)[3] == s[3]);
        }
        assert((s + t).skip(4) =~= s.skip(4) + t);
        lemma_append_scan(s.skip(4), t);
        assert(has_delim(s + t));
    } else {
        assert(!is_delim_at(s + t, 0)) by {
            if is_delim_at(s + t, 0) {
                assert((s + t)[0] == s[0]);
                assert((s + t)[1] == s[1]);
                assert((s + t)[2] == s[2]);
                assert((s + t)[3] == s[3]);
            }
        }
        if has_delim(s) {
            let w: int = choose|i: int| is_delim_at(s, i);
            assert(is_delim_at(s + t, w)) by {
                assert((s + t)[w] == s[w]);
                assert((s + t)[w + 1] == s[w + 1]);
                assert((s + t)[w + 2] == s[w + 2]);
                assert((s + t)[w + 3] == s[w + 3]);
            }
            assert(has_delim(s + t));
            assert((s + t).skip(1) =~= s.skip(1) + t);
            lemma_append_scan(s.skip(1), t);
        } else {
            lemma_no_delim(s);
        }
    }
}

/// A request body free of carriage returns, closed by one delimiter, is
/// exactly one request, and its scan consumes every byte.
pub proof fn lemma_single_request(a: Seq<u8>)
    requires
        forall|i: int| 0 <= i < a.len() ==> a[i] != 13u8,
    ensures
        count_requests(a + delim()) == 1,
        remainder(a + delim()) == Seq::<u8>::empty(),
{
    let s = a + delim();
    assert(is_delim_at(s, a.len() as int)) by {
        assert(s[a.len() as int] == delim()[0]);
        assert(s[a.len() as int + 1] == delim()[1]);
        assert(s[a.len() as int + 2] == delim()[2]);
        assert(s[a.len() as int + 3] == delim()[3]);
    }
    assert forall|j: int| 0 <= j < a.len() implies !is_delim_at(s, j) by {
        assert(s[j] == a[j]);
    }
    lemma_first_match_step(s, a.len() as int);
    assert(s.skip(a.len() as int + 4) =~= Seq::<u8>::empty());
}

/// Two pipelined requests arriving in one write are answered exactly twice:
/// two bodies free of carriage returns, each closed by its own delimiter,
/// count as two requests, in order, with nothing left over. (Bodies that may
/// hold `\r` are excluded: a stray `\r\n` at the end of a body would form a
/// further delimiter together with the bytes around it.)
pub proof fn lemma_pipelined_requests(a: Seq<u8>, b: Seq<u8>)
    requires
        forall|i: int| 0 <= i < a.len() ==> a[i] != 13u8,
        forall|i: int| 0 <= i < b.len() ==> b[i] != 13u8,
    ensures
        count_requests(a + delim() + b + delim()) == 2,
        remainder(a + delim() + b + delim()) == Seq::<u8>::empty(),
{
    let s = a + delim() + b + delim();
    assert(is_delim_at(s, a.len() as int)) by {
        assert(s[a.len() as int] == delim()[0]);
        assert(s[a.len() as int + 1] == delim()[1]);
        assert(s[a.len() as int + 2] == delim()[2]);
        assert(s[a.len() as int + 3] == delim()[3]);
    }
    assert forall|j: int| 0 <= j < a.len() implies !is_delim_at(s, j) by {
        assert(s[j] == a[j]);
    }
    lemma_first_match_step(s, a.len() as int);
    assert(s.skip(a.len() as int + 4) =~= b + delim());
    lemma_single_request(b);
}

/// Total number of responses a handler owes when, starting from the
/// delimiter-free bytes `leftover` of earlier reads, it receives `chunks` one
/// read at a time, scanning and consuming after each read.
pub open spec fn chunked_responses(leftover: Seq<u8>, chunks: Seq<Seq<u8>>) -> nat
    decreases chunks.len(),
{
    if chunks.len() == 0 {
        0
    } else {
        count_requests(leftover + chunks.first()) + chunked_responses(
            remainder(leftover + chunks.first()),
            chunks.drop_first(),
        )
    }
}

/// The bytes still unconsumed after the same chunk-by-chunk processing.
pub open spec fn chunked_leftover(leftover: Seq<u8>, chunks: Seq<Seq<u8>>) -> Seq<u8>
    decreases chunks.len(),
{
    if chunks.len() == 0 {
        leftover
    } else {
        chunked_leftover(remainder(leftover + chunks.first()), chunks.drop_first())
    }
}

/// However an incoming byte stream is cut into read chunks, the number of
/// responses produced equals the number of requests in the whole stream, and
/// the bytes finally left over are exactly the scan leftover of the whole
/// stream. In particular a delimiter split across reads is still detected.
pub proof fn lemma_stream_total(leftover: Seq<u8>, chunks: Seq<Seq<u8>>)
    requires
        !has_delim(leftover),
    ensures
        chunked_responses(leftover, chunks) == count_requests(leftover + chunks.flatten()),
        chunked_leftover(leftover, chunks) == remainder(leftover + chunks.flatten()),
    decreases chunks.len(),
{
    if chunks.len() == 0 {
        assert(leftover + chunks.flatten() =~= leftover);
        lemma_no_delim(leftover);
    } else {
        let first = chunks.first();
        let rest = chunks.drop_first();
        let r0 = remainder(leftover + first);
        lemma_remainder_no_delim(leftover + first);
        lemma_stream_total(r0, rest);
        lemma_append_scan(leftover + first, rest.flatten());
        assert((leftover + first) + rest.flatten() =~= leftover + chunks.flatten());
    }
}

/// The bytes standing before each delimiter have no influence on the count:
/// two streams of equal length whose delimiters sit at the same places
/// contain the same number of requests, whatever their other bytes hold.
pub proof fn lemma_content_independent(s: Seq<u8>, t: Seq<u8>)
    requires
        s.len() == t.len(),
        forall|i: int| is_delim_at(s, i) <==> is_delim_at(t, i),
    ensures
        count_requests(s) == count_requests(t),
    decreases s.len(),
{
    if s.len() >= 4 {
        assert(is_delim_at(s, 0) <==> is_delim_at(t, 0));
        let k: int = if is_delim_at(s, 0) {
            4
        } else {
            1
        };
        lemma_delim_shift(s, k);
        lemma_delim_shift(t, k);
        assert forall|i: int| is_delim_at(s.skip(k), i) <==> is_delim_at(t.skip(k), i) by {
            assert(is_delim_at(s.skip(k), i) <==> (0 <= i && is_delim_at(s, i + k)));
            assert(is_delim_at(t.skip(k), i) <==> (0 <= i && is_delim_at(t, i + k)));
            assert(is_delim_at(s, i + k) <==> is_delim_at(t, i + k));
        }
        lemma_content_independent(s.skip(k), t.skip(k));
    }
}

} // verus!

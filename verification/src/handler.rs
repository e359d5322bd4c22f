//! The computing half of one connection's request/reply loop.
//!
//! The surrounding program reads one line from the transport, hands its bytes
//! to `handle_line`, writes the reply bytes back, and repeats until the peer
//! closes.  `handle_requests` models a whole such session over a given list
//! of request lines: one reply per request, in order, each depending on its
//! own line alone.

use vstd::prelude::*;
use crate::dispatch::{dispatch, mismatched_reply, render_reply, spec_reply, Reply};
use crate::tokenize::{spec_tokenize, tokenize, words_of};

verus! {

/// The one reply line owed to one request line: the reply to its tokens, or
/// the tokenization-error reply.
pub open spec fn spec_response(line: Seq<u8>) -> Seq<u8> {
    match spec_tokenize(line) {
        Ok(t) => spec_reply(t),
        Err(_) => mismatched_reply(),
    }
}

/// Answer one request line with one reply line.
pub fn handle_line(line: &[u8]) -> (out: Vec<u8>)
    ensures
        out@ == spec_response(line@),
{
    match tokenize(line) {
        Ok(toks) => {
            let r = dispatch(&toks);
            render_reply(r)
        },
        Err(_) => render_reply(Reply::ErrMismatchedQuotes),
    }
}

/// Answer a whole session's requests: exactly one reply per request line, in
/// the same order, each fixed by its own line alone.  No requests (the peer
/// closed at once) is no replies.
pub fn handle_requests(lines: &Vec<Vec<u8>>) -> (replies: Vec<Vec<u8>>)
    ensures
        replies@.len() == lines@.len(),
        forall|i: int|
            0 <= i < lines@.len() ==> words_of(replies@)[i] == spec_response(lines@[i]@),
{
    let mut replies: Vec<Vec<u8>> = Vec::new();
    let mut i: usize = 0;
    while i < lines.len()
        invariant
            i <= lines@.len(),
            replies@.len() == i,
            forall|j: int|
                0 <= j < i as int ==> words_of(replies@)[j] == spec_response(lines@[j]@),
        decreases lines.len() - i,
    {
        let out = handle_line(lines[i].as_slice());
        let ghost prev = replies@;
        replies.push(out);
        proof {
            assert forall|j: int| 0 <= j < i as int + 1 implies words_of(replies@)[j]
                == spec_response(lines@[j]@) by {
                if j < i as int {
                    assert(replies@[j] == prev[j]);
                    assert(words_of(prev)[j] == spec_response(lines@[j]@));
                } else {
                    assert(replies@[j] == out);
                }
            }
        }
        i = i + 1;
    }
    replies
}

} // verus!
